use vstd::prelude::*;
use std::sync::Arc;

use crate::data_driven_tf::data::FlowData;
use crate::data_driven_tf::dependency::DepState;
use crate::data_driven_tf::error::FlowError;
use crate::data_driven_tf::flow_template::FlowTemplate;
use crate::data_driven_tf::types::{DataId, DepId, VertexId};
use crate::data_driven_tf::vertex::VertexState;

verus! {

/// `x - 1`, wrapping around at zero (an atomic `fetch_sub(1)`).
pub open spec fn wrapping_dec(x: usize) -> usize {
    if x == 0 {
        usize::MAX
    } else {
        (x - 1) as usize
    }
}

/// `x + 1`, wrapping around at the top (an atomic `fetch_add(1)`).
pub open spec fn wrapping_inc(x: usize) -> usize {
    if x == usize::MAX {
        0
    } else {
        (x + 1) as usize
    }
}

/// Completion bookkeeping of one run: the number of running tasks, whether
/// one failed, and whether the single completion signal was already given.
pub struct OneshotWait {
    pub pending: usize,
    pub has_failed: bool,
    pub signalled: bool,
}

/// What a running task reports.
pub enum TaskEvent {
    Created,
    Done,
    Failed,
}

/// The bookkeeping after one event, and whether the event gives the
/// completion signal (success for `Done`, the failure for `Failed`).
pub open spec fn on_event(w: OneshotWait, e: TaskEvent) -> (OneshotWait, bool) {
    match e {
        TaskEvent::Created => (
            OneshotWait { pending: wrapping_inc(w.pending), has_failed: w.has_failed, signalled: w.signalled },
            false,
        ),
        TaskEvent::Done => {
            let send = w.pending == 1 && !w.has_failed && !w.signalled;
            (
                OneshotWait { pending: wrapping_dec(w.pending), has_failed: w.has_failed, signalled: w.signalled || send },
                send,
            )
        },
        TaskEvent::Failed => {
            let send = !w.has_failed && !w.signalled;
            (OneshotWait { pending: wrapping_dec(w.pending), has_failed: true, signalled: w.signalled || send }, send)
        },
    }
}

/// Number of completion signals that the events give, in order.
pub open spec fn signal_count(w: OneshotWait, events: Seq<TaskEvent>) -> nat
    decreases events.len(),
{
    if events.len() == 0 {
        0
    } else {
        let (w1, send) = on_event(w, events[0]);
        (if send { 1nat } else { 0nat }) + signal_count(w1, events.skip(1))
    }
}

impl OneshotWait {
    pub fn new() -> (w: Self)
        ensures
            w.pending == 0,
            !w.has_failed,
            !w.signalled,
    {
        OneshotWait { pending: 0, has_failed: false, signalled: false }
    }

    /// A task was started.
    pub fn on_task_created(&mut self)
        ensures
            *final(self) == on_event(*old(self), TaskEvent::Created).0,
    {
        self.pending = if self.pending == usize::MAX { 0 } else { self.pending + 1 };
    }

    /// A task finished successfully. Returns whether the run is complete
    /// and its success must be signalled now: the last running task
    /// finished, no task failed, and nothing was signalled yet.
    pub fn on_task_done(&mut self) -> (send_ok: bool)
        ensures
            (*final(self), send_ok) == on_event(*old(self), TaskEvent::Done),
    {
        let last = self.pending == 1;
        self.pending = if self.pending == 0 { usize::MAX } else { self.pending - 1 };
        if last && !self.has_failed && !self.signalled {
            self.signalled = true;
            true
        } else {
            false
        }
    }

    /// A task failed. Returns whether the failure must be signalled now:
    /// it is the first failure and nothing was signalled yet.
    pub fn on_task_failed(&mut self) -> (send_err: bool)
        ensures
            (*final(self), send_err) == on_event(*old(self), TaskEvent::Failed),
    {
        let mut send = false;
        if !self.has_failed {
            self.has_failed = true;
            if !self.signalled {
                self.signalled = true;
                send = true;
            }
        }
        self.pending = if self.pending == 0 { usize::MAX } else { self.pending - 1 };
        send
    }
}

/// A run is signalled at most once, whatever its tasks report: no signal
/// once it was signalled, at most one before.
pub proof fn law_single_signal(w: OneshotWait, events: Seq<TaskEvent>)
    ensures
        signal_count(w, events) <= (if w.signalled { 0nat } else { 1nat }),
    decreases events.len(),
{
    if events.len() > 0 {
        let (w1, send) = on_event(w, events[0]);
        law_single_signal(w1, events.skip(1));
    }
}

/// After a task failed, nothing more is signalled: the run's one result is
/// its first failure or, when no task failed before, its success.
pub proof fn law_failure_is_final(w: OneshotWait, events: Seq<TaskEvent>)
    requires
        w.has_failed,
    ensures
        signal_count(w, events) == 0,
    decreases events.len(),
{
    if events.len() > 0 {
        let (w1, send) = on_event(w, events[0]);
        law_failure_is_final(w1, events.skip(1));
    }
}

/// The bookkeeping after the events, in order.
pub open spec fn after_events(w: OneshotWait, events: Seq<TaskEvent>) -> OneshotWait
    decreases events.len(),
{
    if events.len() == 0 {
        w
    } else {
        after_events(on_event(w, events[0]).0, events.skip(1))
    }
}

/// Number of events `e` among `events`.
pub open spec fn event_count(events: Seq<TaskEvent>, e: TaskEvent) -> nat
    decreases events.len(),
{
    if events.len() == 0 {
        0
    } else {
        (if events[0] == e { 1nat } else { 0nat }) + event_count(events.skip(1), e)
    }
}

/// No task finishes before it was started: at every point of `events`,
/// no more tasks finished than the `pending` ones plus those created.
pub open spec fn finishes_after_start(pending: nat, events: Seq<TaskEvent>) -> bool {
    forall|k: int|
        1 <= k <= events.len() ==> event_count(#[trigger] events.take(k), TaskEvent::Done) <= pending + event_count(
            events.take(k),
            TaskEvent::Created,
        )
}

/// Some task still runs at every point after the first event: at each
/// point fewer tasks finished than the `pending` ones plus those created.
pub open spec fn always_running(pending: nat, events: Seq<TaskEvent>) -> bool {
    forall|k: int|
        1 <= k <= events.len() ==> event_count(#[trigger] events.take(k), TaskEvent::Done) < pending + event_count(
            events.take(k),
            TaskEvent::Created,
        )
}

proof fn lemma_take_skip_counts(events: Seq<TaskEvent>, k: int, e: TaskEvent)
    requires
        1 <= k <= events.len(),
    ensures
        event_count(events.take(k), e) == (if events[0] == e { 1nat } else { 0nat }) + event_count(
            events.skip(1).take(k - 1),
            e,
        ),
{
    assert(events.take(k).skip(1) =~= events.skip(1).take(k - 1));
    assert(events.take(k)[0] == events[0]);
}

/// The pending count is the number of tasks created minus the number
/// finished, when no task fails or finishes before it was created and the
/// count stays below the top of `usize`: each creation raises it by one
/// and each finish lowers it by one.
pub proof fn law_pending_counts_running_tasks(w: OneshotWait, events: Seq<TaskEvent>)
    requires
        event_count(events, TaskEvent::Failed) == 0,
        finishes_after_start(w.pending as nat, events),
        w.pending + event_count(events, TaskEvent::Created) < usize::MAX,
    ensures
        after_events(w, events).pending == w.pending + event_count(events, TaskEvent::Created) - event_count(
            events,
            TaskEvent::Done,
        ),
    decreases events.len(),
{
    if events.len() > 0 {
        let w1 = on_event(w, events[0]).0;
        let rest = events.skip(1);
        lemma_take_skip_counts(events, 1, TaskEvent::Done);
        lemma_take_skip_counts(events, 1, TaskEvent::Created);
        assert(events.take(1).len() == 1);
        assert(rest.take(0) =~= Seq::<TaskEvent>::empty());
        assert(finishes_after_start(w1.pending as nat, rest)) by {
            assert forall|k: int| 1 <= k <= rest.len() implies event_count(#[trigger] rest.take(k), TaskEvent::Done)
                <= w1.pending + event_count(rest.take(k), TaskEvent::Created) by {
                lemma_take_skip_counts(events, k + 1, TaskEvent::Done);
                lemma_take_skip_counts(events, k + 1, TaskEvent::Created);
                assert(events.take(k + 1).len() == k + 1);
            }
        }
        law_pending_counts_running_tasks(w1, rest);
    }
}

/// From an unsignalled, unfailed waiter, no completion is signalled while
/// some task still runs at every point: success comes only with the last
/// running task.
pub proof fn law_no_signal_while_tasks_run(w: OneshotWait, events: Seq<TaskEvent>)
    requires
        !w.signalled,
        !w.has_failed,
        event_count(events, TaskEvent::Failed) == 0,
        always_running(w.pending as nat, events),
        w.pending + event_count(events, TaskEvent::Created) < usize::MAX,
    ensures
        signal_count(w, events) == 0,
        !after_events(w, events).signalled,
    decreases events.len(),
{
    if events.len() > 0 {
        let (w1, send) = on_event(w, events[0]);
        let rest = events.skip(1);
        lemma_take_skip_counts(events, 1, TaskEvent::Done);
        lemma_take_skip_counts(events, 1, TaskEvent::Created);
        lemma_take_skip_counts(events, 1, TaskEvent::Failed);
        assert(events.take(1).len() == 1);
        assert(rest.take(0) =~= Seq::<TaskEvent>::empty());
        assert(!send);
        assert(always_running(w1.pending as nat, rest)) by {
            assert forall|k: int| 1 <= k <= rest.len() implies event_count(#[trigger] rest.take(k), TaskEvent::Done)
                < w1.pending + event_count(rest.take(k), TaskEvent::Created) by {
                lemma_take_skip_counts(events, k + 1, TaskEvent::Done);
                lemma_take_skip_counts(events, k + 1, TaskEvent::Created);
                assert(events.take(k + 1).len() == k + 1);
            }
        }
        law_no_signal_while_tasks_run(w1, rest);
    }
}

/// Number of the data of `targets` that are not published.
pub open spec fn unready_count(rd: Seq<bool>, targets: Seq<DataId>) -> nat
    decreases targets.len(),
{
    if targets.len() == 0 {
        0
    } else {
        unready_count(rd, targets.drop_last()) + (if rd[targets.last().0 as int] { 0nat } else { 1nat })
    }
}

/// The dependency `p` is met: it has data and all of them are published.
pub open spec fn dep_met(t: FlowTemplate, rd: Seq<bool>, p: DepId) -> bool {
    t.dependencies@[p.0 as int].targets@.len() > 0 && unready_count(rd, t.dependencies@[p.0 as int].targets@) == 0
}

/// Number of the entries of `deps` that are met.
pub open spec fn met_count(t: FlowTemplate, rd: Seq<bool>, deps: Seq<DepId>) -> nat
    decreases deps.len(),
{
    if deps.len() == 0 {
        0
    } else {
        met_count(t, rd, deps.drop_last()) + (if dep_met(t, rd, deps.last()) { 1nat } else { 0nat })
    }
}

/// The number of unmet dependencies that an activated vertex waits for.
pub open spec fn vertex_pending(t: FlowTemplate, rd: Seq<bool>, v: int) -> int {
    t.vertices@[v].dependencies@.len() - met_count(t, rd, t.vertices@[v].dependencies@)
}

/// The counters after the publication of a datum whose successor
/// dependencies are `succ`, one count per entry: each entry lowers its
/// dependency's counter; when that meets the dependency, it lowers the
/// counter of the dependency's vertex; and when that leaves the vertex
/// waiting for nothing, the vertex is listed to be started.
pub open spec fn propagate(t: FlowTemplate, ds: Seq<DepState>, vs: Seq<VertexState>, succ: Seq<DepId>) -> (
    Seq<DepState>,
    Seq<VertexState>,
    Seq<VertexId>,
)
    decreases succ.len(),
{
    if succ.len() == 0 {
        (ds, vs, Seq::empty())
    } else {
        let (d0, v0, s0) = propagate(t, ds, vs, succ.drop_last());
        let p = succ.last().0 as int;
        let w = d0[p].waiting;
        let d1 = d0.update(p, DepState { waiting: wrapping_dec(w) });
        if w == 1 {
            let src = t.dependencies@[p].src;
            let vw = v0[src.0 as int].waiting;
            let v1 = v0.update(
                src.0 as int,
                VertexState { waiting: wrapping_dec(vw), activated: v0[src.0 as int].activated },
            );
            (d1, v1, if vw == 1 { s0.push(src) } else { s0 })
        } else {
            (d1, v0, s0)
        }
    }
}

/// The state of one run of a data-driven flow: the published data, and
/// how many dependencies each vertex and how many data each dependency
/// still waits for. The payload `V` of the data is not inspected.
pub struct FlowRuntime<V> {
    flow_template: Arc<FlowTemplate>,
    datas: Vec<FlowData<V>>,
    vertices: Vec<VertexState>,
    dependencies: Vec<DepState>,
}

impl<V> FlowRuntime<V> {
    /// The template this run was made from.
    pub closed spec fn template(&self) -> FlowTemplate {
        *self.flow_template
    }

    /// Which data are published.
    pub open spec fn ready(&self) -> Seq<bool> {
        self.data_values().map_values(|o: Option<V>| o is Some)
    }

    pub closed spec fn data_values(&self) -> Seq<Option<V>> {
        self.datas@.map_values(|d: FlowData<V>| d.value())
    }

    pub closed spec fn vertex_states(&self) -> Seq<VertexState> {
        self.vertices@
    }

    pub closed spec fn dep_states(&self) -> Seq<DepState> {
        self.dependencies@
    }

    pub closed spec fn wf(&self) -> bool {
        &&& self.template().wf()
        &&& self.datas@.len() == self.template().datas@.len()
        &&& forall|i: int| 0 <= i < self.datas@.len() ==> (#[trigger] self.datas@[i]).data_id().0 == i
        &&& self.vertices@.len() == self.template().vertices@.len()
        &&& self.dependencies@.len() == self.template().dependencies@.len()
    }

    /// A fresh run of `template`: nothing published, every vertex waits for
    /// all of its dependencies and every dependency for all of its data.
    pub fn new(template: Arc<FlowTemplate>) -> (r: Self)
        requires
            template.wf(),
        ensures
            r.wf(),
            r.template() == *template,
            r.data_values().len() == template.datas@.len(),
            r.vertex_states().len() == template.vertices@.len(),
            r.dep_states().len() == template.dependencies@.len(),
            forall|i: int| 0 <= i < r.data_values().len() ==> #[trigger] r.data_values()[i] is None,
            forall|v: int|
                0 <= v < r.vertex_states().len() ==> (#[trigger] r.vertex_states()[v]).waiting
                    == template.vertices@[v].dependencies@.len() && !r.vertex_states()[v].activated,
            forall|p: int|
                0 <= p < r.dep_states().len() ==> (#[trigger] r.dep_states()[p]).waiting
                    == template.dependencies@[p].targets@.len(),
    {
        let mut datas: Vec<FlowData<V>> = Vec::new();
        let mut i: usize = 0;
        while i < template.datas.len()
            invariant
                i <= template.datas@.len(),
                datas@.len() == i,
                forall|j: int| 0 <= j < i ==> (#[trigger] datas@[j]).data_id().0 == j && datas@[j].value() is None,
            decreases template.datas@.len() - i,
        {
            datas.push(FlowData::new(DataId(i)));
            i = i + 1;
        }
        let mut vertices: Vec<VertexState> = Vec::new();
        let mut i: usize = 0;
        while i < template.vertices.len()
            invariant
                i <= template.vertices@.len(),
                vertices@.len() == i,
                forall|j: int|
                    0 <= j < i ==> (#[trigger] vertices@[j]).waiting == template.vertices@[j].dependencies@.len()
                        && !vertices@[j].activated,
            decreases template.vertices@.len() - i,
        {
            vertices.push(VertexState::new(template.vertices[i].dependencies.len()));
            i = i + 1;
        }
        let mut deps: Vec<DepState> = Vec::new();
        let mut i: usize = 0;
        while i < template.dependencies.len()
            invariant
                i <= template.dependencies@.len(),
                deps@.len() == i,
                forall|j: int| 0 <= j < i ==> (#[trigger] deps@[j]).waiting == template.dependencies@[j].targets@.len(),
            decreases template.dependencies@.len() - i,
        {
            deps.push(DepState::new(template.dependencies[i].targets.len()));
            i = i + 1;
        }
        FlowRuntime { flow_template: template, datas, vertices, dependencies: deps }
    }

    /// Publishes `val` as datum `id` before the run starts.
    pub fn preset(&mut self, id: DataId, val: V) -> (r: Result<(), FlowError>)
        requires
            old(self).wf(),
            id.0 < old(self).template().datas@.len(),
        ensures
            final(self).wf(),
            final(self).template() == old(self).template(),
            final(self).vertex_states() == old(self).vertex_states(),
            final(self).dep_states() == old(self).dep_states(),
            old(self).data_values()[id.0 as int] is None ==> r is Ok && final(self).data_values()
                == old(self).data_values().update(id.0 as int, Some(val)),
            old(self).data_values()[id.0 as int] is Some ==> (r matches Err(FlowError::AlreadyPublished)
                && final(self).data_values() == old(self).data_values()),
    {
        self.publish_data(id, val)
    }

    /// The datum `id`.
    pub fn get_data(&self, id: DataId) -> (d: &FlowData<V>)
        requires
            self.wf(),
            id.0 < self.template().datas@.len(),
        ensures
            d.data_id() == id,
            d.value() == self.data_values()[id.0 as int],
    {
        &self.datas[id.0]
    }

    /// Publishes `val` as datum `id`; a datum is published at most once.
    pub fn publish_data(&mut self, id: DataId, val: V) -> (r: Result<(), FlowError>)
        requires
            old(self).wf(),
            id.0 < old(self).template().datas@.len(),
        ensures
            final(self).wf(),
            final(self).template() == old(self).template(),
            final(self).vertex_states() == old(self).vertex_states(),
            final(self).dep_states() == old(self).dep_states(),
            old(self).data_values()[id.0 as int] is None ==> r is Ok && final(self).data_values()
                == old(self).data_values().update(id.0 as int, Some(val)),
            old(self).data_values()[id.0 as int] is Some ==> (r matches Err(FlowError::AlreadyPublished)
                && final(self).data_values() == old(self).data_values()),
    {
        let mut slot = FlowData::new(id);
        std::mem::swap(&mut slot, &mut self.datas[id.0]);
        let r = slot.set_data(val);
        self.datas.set(id.0, slot);
        proof {
            assert(self.data_values() =~= (if old(self).data_values()[id.0 as int] is None {
                old(self).data_values().update(id.0 as int, Some(val))
            } else {
                old(self).data_values()
            }));
        }
        r
    }

    /// One more datum of dependency `dep` is published; returns whether that
    /// met the dependency.
    pub fn dep_satisfied(&mut self, dep: DepId) -> (met: bool)
        requires
            old(self).wf(),
            dep.0 < old(self).template().dependencies@.len(),
        ensures
            final(self).wf(),
            final(self).template() == old(self).template(),
            final(self).data_values() == old(self).data_values(),
            final(self).vertex_states() == old(self).vertex_states(),
            final(self).dep_states() == old(self).dep_states().update(
                dep.0 as int,
                DepState { waiting: wrapping_dec(old(self).dep_states()[dep.0 as int].waiting) },
            ),
            met == (old(self).dep_states()[dep.0 as int].waiting == 1),
    {
        let w = self.dependencies[dep.0].waiting;
        let nw = if w == 0 { usize::MAX } else { w - 1 };
        self.dependencies.set(dep.0, DepState { waiting: nw });
        w == 1
    }

    /// One more dependency of `vertex` is met; returns whether that made the
    /// vertex ready to run.
    pub fn vertex_ready(&mut self, vertex: VertexId) -> (ready: bool)
        requires
            old(self).wf(),
            vertex.0 < old(self).template().vertices@.len(),
        ensures
            final(self).wf(),
            final(self).template() == old(self).template(),
            final(self).data_values() == old(self).data_values(),
            final(self).dep_states() == old(self).dep_states(),
            final(self).vertex_states() == old(self).vertex_states().update(
                vertex.0 as int,
                VertexState {
                    waiting: wrapping_dec(old(self).vertex_states()[vertex.0 as int].waiting),
                    activated: old(self).vertex_states()[vertex.0 as int].activated,
                },
            ),
            ready == (old(self).vertex_states()[vertex.0 as int].waiting == 1),
    {
        let w = self.vertices[vertex.0].waiting;
        let a = self.vertices[vertex.0].activated;
        let nw = if w == 0 { usize::MAX } else { w - 1 };
        self.vertices.set(vertex.0, VertexState { waiting: nw, activated: a });
        w == 1
    }

    /// Marks `vertex` as started; returns false when it already was.
    pub fn try_activate(&mut self, vertex: VertexId) -> (first: bool)
        requires
            old(self).wf(),
            vertex.0 < old(self).template().vertices@.len(),
        ensures
            final(self).wf(),
            final(self).template() == old(self).template(),
            final(self).data_values() == old(self).data_values(),
            final(self).dep_states() == old(self).dep_states(),
            first == !old(self).vertex_states()[vertex.0 as int].activated,
            final(self).vertex_states() == old(self).vertex_states().update(
                vertex.0 as int,
                VertexState { waiting: old(self).vertex_states()[vertex.0 as int].waiting, activated: true },
            ),
            (final(self).vertex_states(), first) == after_try_activate(old(self).vertex_states(), vertex.0 as int),
    {
        let w = self.vertices[vertex.0].waiting;
        let a = self.vertices[vertex.0].activated;
        self.vertices.set(vertex.0, VertexState { waiting: w, activated: true });
        !a
    }

    /// After datum `id` was published: every dependency that waits for it
    /// counts it, and the vertices whose last dependency was met by this
    /// are returned, to be started.
    pub fn on_data_published(&mut self, id: DataId) -> (r: Result<Vec<VertexId>, FlowError>)
        requires
            old(self).wf(),
            id.0 < old(self).template().datas@.len(),
        ensures
            final(self).wf(),
            final(self).template() == old(self).template(),
            final(self).data_values() == old(self).data_values(),
            !old(self).ready()[id.0 as int] ==> (r matches Err(FlowError::PublishDataWhileNotReady(i)) && i
                == id.0 && final(self).vertex_states() == old(self).vertex_states() && final(self).dep_states()
                == old(self).dep_states()),
            old(self).ready()[id.0 as int] ==> (r matches Ok(vs) && (final(self).dep_states(), final(self).vertex_states(), vs@)
                == propagate(
                old(self).template(),
                old(self).dep_states(),
                old(self).vertex_states(),
                old(self).template().datas@[id.0 as int].successors@,
            )),
            r matches Ok(vs) ==> forall|k: int|
                0 <= k < vs@.len() ==> (#[trigger] vs@[k]).0 < old(self).template().vertices@.len(),
    {
        if !self.datas[id.0].is_ready() {
            return Err(FlowError::PublishDataWhileNotReady(id.0));
        }
        let template = self.flow_template.clone();
        let successors = &template.datas[id.0].successors;
        let mut to_spawn: Vec<VertexId> = Vec::new();
        let mut k: usize = 0;
        while k < successors.len()
            invariant
                self.wf(),
                self.template() == old(self).template(),
                *template == old(self).template(),
                *successors == old(self).template().datas@[id.0 as int].successors,
                self.data_values() == old(self).data_values(),
                id.0 < old(self).template().datas@.len(),
                k <= successors@.len(),
                forall|j: int| 0 <= j < to_spawn@.len() ==> (#[trigger] to_spawn@[j]).0 < old(self).template().vertices@.len(),
                (self.dep_states(), self.vertex_states(), to_spawn@) == propagate(
                    old(self).template(),
                    old(self).dep_states(),
                    old(self).vertex_states(),
                    successors@.take(k as int),
                ),
            decreases successors@.len() - k,
        {
            let dep_id = successors[k];
            proof {
                assert(old(self).template().datas@[id.0 as int].successors@[k as int] == dep_id);
                assert(successors@.take(k + 1).drop_last() =~= successors@.take(k as int));
                assert(successors@.take(k + 1).last() == dep_id);
            }
            if self.dep_satisfied(dep_id) {
                let src = template.dependencies[dep_id.0].src;
                if self.vertex_ready(src) {
                    to_spawn.push(src);
                }
            }
            k = k + 1;
        }
        proof {
            assert(successors@.take(k as int) =~= successors@);
        }
        Ok(to_spawn)
    }
}


/// Number of the vertices not yet visited.
pub open spec fn unvisited(s: Seq<bool>) -> nat
    decreases s.len(),
{
    if s.len() == 0 {
        0
    } else {
        unvisited(s.drop_last()) + (if s.last() { 0nat } else { 1nat })
    }
}

proof fn lemma_unvisited_mono(a: Seq<bool>, b: Seq<bool>)
    requires
        a.len() == b.len(),
        forall|i: int| 0 <= i < a.len() && a[i] ==> #[trigger] b[i],
    ensures
        unvisited(b) <= unvisited(a),
    decreases a.len(),
{
    if a.len() > 0 {
        assert(a[a.len() - 1] ==> b[a.len() - 1]);
        lemma_unvisited_mono(a.drop_last(), b.drop_last());
    }
}

proof fn lemma_unvisited_mark(a: Seq<bool>, i: int)
    requires
        0 <= i < a.len(),
        !a[i],
    ensures
        unvisited(a.update(i, true)) + 1 == unvisited(a),
    decreases a.len(),
{
    if i < a.len() - 1 {
        assert(a.update(i, true).drop_last() =~= a.drop_last().update(i, true));
        lemma_unvisited_mark(a.drop_last(), i);
    } else {
        assert(a.update(i, true).drop_last() =~= a.drop_last());
    }
}

proof fn lemma_unready_le(rd: Seq<bool>, targets: Seq<DataId>)
    ensures
        unready_count(rd, targets) <= targets.len(),
    decreases targets.len(),
{
    if targets.len() > 0 {
        lemma_unready_le(rd, targets.drop_last());
    }
}

proof fn lemma_met_le(t: FlowTemplate, rd: Seq<bool>, deps: Seq<DepId>)
    ensures
        met_count(t, rd, deps) <= deps.len(),
    decreases deps.len(),
{
    if deps.len() > 0 {
        lemma_met_le(t, rd, deps.drop_last());
    }
}

/// `post` and `runnable` come from `pre` by a walk from no visited vertex
/// that visited the producer of each unpublished datum of `targets`, and
/// visited no other vertex than producers of unpublished data that are
/// `targets` or inputs of vertices it visited.
pub open spec fn activated_from<V>(
    pre: FlowRuntime<V>,
    post: FlowRuntime<V>,
    targets: Seq<DataId>,
    runnable: Seq<VertexId>,
) -> bool {
    exists|vis: Seq<bool>|
        #[trigger] visit_ok(
            pre,
            post,
            none_visited(pre.template().vertices@.len()),
            vis,
            Seq::<VertexId>::empty(),
            runnable,
            -1,
        ) && targets_visited(pre.template(), pre.ready(), vis, targets) && justified(
            pre.template(),
            pre.ready(),
            none_visited(pre.template().vertices@.len()),
            vis,
            targets,
            -1,
        )
}

/// No vertex visited yet.
pub open spec fn none_visited(n: nat) -> Seq<bool> {
    Seq::new(n, |i: int| false)
}

/// Vertex `x` was visited during a walk from `vis0` to `vis1`.
pub open spec fn newly(vis0: Seq<bool>, vis1: Seq<bool>, x: int) -> bool {
    vis1[x] && !vis0[x]
}

/// The counters of vertex `v` and of its dependencies count exactly what
/// is still unpublished.
pub open spec fn settled(t: FlowTemplate, rd: Seq<bool>, vs: Seq<VertexState>, ds: Seq<DepState>, v: int) -> bool {
    &&& vs[v].waiting == vertex_pending(t, rd, v)
    &&& forall|k: int|
        0 <= k < t.vertices@[v].dependencies@.len() ==> (#[trigger] ds[t.vertices@[v].dependencies@[k].0 as int]).waiting
            == unready_count(rd, t.dependencies@[t.vertices@[v].dependencies@[k].0 as int].targets@)
}

/// Every unpublished input of vertex `v` that some vertex produces has its
/// producer visited.
pub open spec fn inputs_visited(t: FlowTemplate, rd: Seq<bool>, vis: Seq<bool>, v: int) -> bool {
    forall|k: int, j: int|
        0 <= k < t.vertices@[v].dependencies@.len() && 0 <= j < t.dependencies@[t.vertices@[v].dependencies@[k].0 as int].targets@.len()
            ==> {
            let d = #[trigger] t.dependencies@[t.vertices@[v].dependencies@[k].0 as int].targets@[j];
            !rd[d.0 as int] ==> (t.datas@[d.0 as int].producer matches Some(q) ==> vis[q.0 as int])
        }
}

/// Every unpublished datum of `targets` that some vertex produces has its
/// producer visited.
pub open spec fn targets_visited(t: FlowTemplate, rd: Seq<bool>, vis: Seq<bool>, targets: Seq<DataId>) -> bool {
    forall|j: int|
        0 <= j < targets.len() ==> {
            let d = #[trigger] targets[j];
            !rd[d.0 as int] ==> (t.datas@[d.0 as int].producer matches Some(q) ==> vis[q.0 as int])
        }
}

/// Vertex `v` produces some unpublished datum.
pub open spec fn produces_unready(t: FlowTemplate, rd: Seq<bool>, v: int) -> bool {
    exists|d: int|
        0 <= d < t.datas@.len() && !rd[d] && (#[trigger] t.datas@[d]).producer == Some(VertexId(v as usize))
}

/// A backward walk from `pre` (visited set `vis0`, runnable list `rn0`) to
/// `post` (`vis1`, `rn1`): the data are untouched; each vertex visited by
/// the walk produces an unpublished datum, has the producers of its
/// unpublished inputs visited, and has its counters and those of its
/// dependencies set to exactly what is still unpublished; the vertices
/// not visited by the walk (and not `ev`) keep their counters; and the walk
/// appended to the runnable list, once each, exactly its visited vertices
/// that wait for nothing.
pub open spec fn visit_ok<V>(
    pre: FlowRuntime<V>,
    post: FlowRuntime<V>,
    vis0: Seq<bool>,
    vis1: Seq<bool>,
    rn0: Seq<VertexId>,
    rn1: Seq<VertexId>,
    ev: int,
) -> bool {
    let t = pre.template();
    let rd = pre.ready();
    let nv = t.vertices@.len();
    let np = t.dependencies@.len();
    &&& post.wf()
    &&& post.template() == t
    &&& post.data_values() == pre.data_values()
    &&& vis0.len() == nv
    &&& vis1.len() == nv
    &&& forall|x: int| 0 <= x < nv && vis0[x] ==> #[trigger] vis1[x]
    &&& forall|x: int|
        0 <= x < nv && x != ev && !newly(vis0, vis1, x) ==> #[trigger] post.vertex_states()[x]
            == pre.vertex_states()[x]
    &&& forall|p: int|
        0 <= p < np && t.dependencies@[p].src.0 != ev && !newly(vis0, vis1, t.dependencies@[p].src.0 as int)
            ==> #[trigger] post.dep_states()[p] == pre.dep_states()[p]
    &&& forall|x: int|
        0 <= x < nv && #[trigger] newly(vis0, vis1, x) ==> {
            &&& settled(t, rd, post.vertex_states(), post.dep_states(), x)
            &&& inputs_visited(t, rd, vis1, x)
            &&& post.vertex_states()[x].activated == pre.vertex_states()[x].activated
            &&& produces_unready(t, rd, x)
        }
    &&& rn0.len() <= rn1.len()
    &&& rn1.take(rn0.len() as int) == rn0
    &&& rn1.skip(rn0.len() as int).no_duplicates()
    &&& forall|j: int|
        rn0.len() <= j < rn1.len() ==> (#[trigger] rn1[j]).0 < nv && newly(vis0, vis1, rn1[j].0 as int)
            && vertex_pending(t, rd, rn1[j].0 as int) == 0
    &&& forall|x: int|
        0 <= x < nv && #[trigger] newly(vis0, vis1, x) && vertex_pending(t, rd, x) == 0 ==> rn1.skip(
            rn0.len() as int,
        ).contains(VertexId(x as usize))
}


proof fn lemma_visit_refl<V>(a: FlowRuntime<V>, vis: Seq<bool>, rn: Seq<VertexId>, ev: int)
    requires
        a.wf(),
        vis.len() == a.template().vertices@.len(),
    ensures
        visit_ok(a, a, vis, vis, rn, rn, ev),
{
    assert(rn.take(rn.len() as int) =~= rn);
    assert(rn.skip(rn.len() as int) =~= Seq::<VertexId>::empty());
}

proof fn lemma_visit_weaken<V>(
    a: FlowRuntime<V>,
    b: FlowRuntime<V>,
    v0: Seq<bool>,
    v1: Seq<bool>,
    r0: Seq<VertexId>,
    r1: Seq<VertexId>,
    ev: int,
)
    requires
        visit_ok(a, b, v0, v1, r0, r1, -1),
    ensures
        visit_ok(a, b, v0, v1, r0, r1, ev),
{
}

/// The counters of the settled vertex `x` only read those of `x` and of its
/// own dependencies.
proof fn lemma_settled_frame(
    t: FlowTemplate,
    rd: Seq<bool>,
    vs0: Seq<VertexState>,
    ds0: Seq<DepState>,
    vs1: Seq<VertexState>,
    ds1: Seq<DepState>,
    x: int,
)
    requires
        t.wf(),
        0 <= x < t.vertices@.len(),
        settled(t, rd, vs0, ds0, x),
        vs1[x] == vs0[x],
        forall|p: int| 0 <= p < t.dependencies@.len() && t.dependencies@[p].src.0 == x ==> #[trigger] ds1[p] == ds0[p],
    ensures
        settled(t, rd, vs1, ds1, x),
{
    assert forall|k: int| 0 <= k < t.vertices@[x].dependencies@.len() implies (#[trigger] ds1[t.vertices@[x].dependencies@[k].0 as int]).waiting
        == unready_count(rd, t.dependencies@[t.vertices@[x].dependencies@[k].0 as int].targets@) by {
        let p = t.vertices@[x].dependencies@[k].0 as int;
        assert(t.dependencies@[p].src.0 == x);
        assert(ds1[p] == ds0[p]);
    }
}

/// Changing only the counters of the vertex `ev` (visited before) and of
/// its dependencies keeps a walk valid.
proof fn lemma_visit_local<V>(
    a: FlowRuntime<V>,
    b: FlowRuntime<V>,
    c: FlowRuntime<V>,
    v0: Seq<bool>,
    v1: Seq<bool>,
    r0: Seq<VertexId>,
    r1: Seq<VertexId>,
    ev: int,
)
    requires
        visit_ok(a, b, v0, v1, r0, r1, ev),
        0 <= ev < a.template().vertices@.len(),
        v0[ev],
        c.wf(),
        c.template() == b.template(),
        c.data_values() == b.data_values(),
        forall|x: int| 0 <= x < a.template().vertices@.len() && x != ev ==> #[trigger] c.vertex_states()[x] == b.vertex_states()[x],
        forall|p: int|
            0 <= p < a.template().dependencies@.len() && a.template().dependencies@[p].src.0 != ev
                ==> #[trigger] c.dep_states()[p] == b.dep_states()[p],
    ensures
        visit_ok(a, c, v0, v1, r0, r1, ev),
{
    let t = a.template();
    let rd = a.ready();
    assert forall|x: int| 0 <= x < t.vertices@.len() && #[trigger] newly(v0, v1, x) implies {
        &&& settled(t, rd, c.vertex_states(), c.dep_states(), x)
        &&& inputs_visited(t, rd, v1, x)
        &&& c.vertex_states()[x].activated == a.vertex_states()[x].activated
        &&& produces_unready(t, rd, x)
    } by {
        assert(x != ev);
        assert(c.vertex_states()[x] == b.vertex_states()[x]);
        lemma_settled_frame(t, rd, b.vertex_states(), b.dep_states(), c.vertex_states(), c.dep_states(), x);
    }
}

/// Two walks in a row make one.
proof fn lemma_visit_trans<V>(
    a: FlowRuntime<V>,
    b: FlowRuntime<V>,
    c: FlowRuntime<V>,
    va: Seq<bool>,
    vb: Seq<bool>,
    vc: Seq<bool>,
    ra: Seq<VertexId>,
    rb: Seq<VertexId>,
    rc: Seq<VertexId>,
    ev: int,
)
    requires
        visit_ok(a, b, va, vb, ra, rb, ev),
        visit_ok(b, c, vb, vc, rb, rc, ev),
        0 <= ev < a.template().vertices@.len() ==> va[ev],
    ensures
        visit_ok(a, c, va, vc, ra, rc, ev),
{
    let t = a.template();
    let rd = a.ready();
    let nv = t.vertices@.len();
    let np = t.dependencies@.len();
    assert(b.ready() == rd);
    assert forall|x: int| 0 <= x < nv && x != ev && !newly(va, vc, x) implies #[trigger] c.vertex_states()[x]
        == a.vertex_states()[x] by {
        assert(va[x] ==> vb[x]);
        assert(vb[x] ==> vc[x]);
        assert(!newly(va, vb, x));
        assert(!newly(vb, vc, x));
        assert(b.vertex_states()[x] == a.vertex_states()[x]);
    }
    assert forall|p: int|
        0 <= p < np && t.dependencies@[p].src.0 != ev && !newly(va, vc, t.dependencies@[p].src.0 as int)
            implies #[trigger] c.dep_states()[p] == a.dep_states()[p] by {
        let x = t.dependencies@[p].src.0 as int;
        assert(0 <= x < nv);
        assert(va[x] ==> vb[x]);
        assert(vb[x] ==> vc[x]);
        assert(!newly(va, vb, x));
        assert(!newly(vb, vc, x));
    }
    assert forall|x: int| 0 <= x < nv && #[trigger] newly(va, vc, x) implies {
        &&& settled(t, rd, c.vertex_states(), c.dep_states(), x)
        &&& inputs_visited(t, rd, vc, x)
        &&& c.vertex_states()[x].activated == a.vertex_states()[x].activated
        &&& produces_unready(t, rd, x)
    } by {
        if vb[x] {
            assert(newly(va, vb, x));
            assert(!newly(vb, vc, x));
            assert(x != ev);
            assert(c.vertex_states()[x] == b.vertex_states()[x]);
            assert forall|p: int| 0 <= p < np && t.dependencies@[p].src.0 == x implies #[trigger] c.dep_states()[p]
                == b.dep_states()[p] by {
                assert(!newly(vb, vc, t.dependencies@[p].src.0 as int));
            }
            lemma_settled_frame(t, rd, b.vertex_states(), b.dep_states(), c.vertex_states(), c.dep_states(), x);
            assert forall|k: int, j: int|
                0 <= k < t.vertices@[x].dependencies@.len() && 0 <= j < t.dependencies@[t.vertices@[x].dependencies@[k].0 as int].targets@.len()
                    implies {
                    let d = #[trigger] t.dependencies@[t.vertices@[x].dependencies@[k].0 as int].targets@[j];
                    !rd[d.0 as int] ==> (t.datas@[d.0 as int].producer matches Some(q) ==> vc[q.0 as int])
                } by {
                let d = t.dependencies@[t.vertices@[x].dependencies@[k].0 as int].targets@[j];
                if !rd[d.0 as int] {
                    if let Some(q) = t.datas@[d.0 as int].producer {
                        assert(vb[q.0 as int]);
                        assert(q.0 < nv) by {
                            assert(t.vertices@[x].dependencies@[k].0 < np);
                            assert(d.0 < t.datas@.len());
                        }
                        assert(vc[q.0 as int]);
                    }
                }
            }
        } else {
            assert(newly(vb, vc, x));
            assert(!va[x]);
        }
    }
    let pa = ra.len() as int;
    let pb = rb.len() as int;
    let s1 = rb.skip(pa);
    let s2 = rc.skip(pb);
    assert(rc.take(pa) =~= ra) by {
        assert(rc.take(pb) == rb);
        assert(rb.take(pa) == ra);
    }
    assert(rc.skip(pa) =~= s1 + s2) by {
        assert(rc.take(pb) == rb);
    }
    assert forall|j: int| pa <= j < rc.len() implies (#[trigger] rc[j]).0 < nv && newly(va, vc, rc[j].0 as int)
        && vertex_pending(t, rd, rc[j].0 as int) == 0 by {
        if j < pb {
            assert(rc[j] == rb[j]) by {
                assert(rc.take(pb)[j] == rb[j]);
            }
            let x = rb[j].0 as int;
            assert(newly(va, vb, x));
            assert(vc[x]);
        } else {
            let x = rc[j].0 as int;
            assert(newly(vb, vc, x));
            assert(!va[x]);
        }
    }
    assert((s1 + s2).no_duplicates()) by {
        assert forall|i: int, j: int| 0 <= i < s1.len() && 0 <= j < s2.len() implies s1[i] != s2[j] by {
            assert(s1[i] == rb[pa + i]);
            assert(newly(va, vb, rb[pa + i].0 as int));
            assert(s2[j] == rc[pb + j]);
            assert(newly(vb, vc, rc[pb + j].0 as int));
        }
        assert forall|i: int, j: int| 0 <= i < (s1 + s2).len() && 0 <= j < (s1 + s2).len() && i != j implies (s1
            + s2)[i] != (s1 + s2)[j] by {
            if i < s1.len() && j < s1.len() {
            } else if i >= s1.len() && j >= s1.len() {
                assert((s1 + s2)[i] == s2[i - s1.len()]);
                assert((s1 + s2)[j] == s2[j - s1.len()]);
            } else if i < s1.len() {
                assert((s1 + s2)[j] == s2[j - s1.len()]);
            } else {
                assert((s1 + s2)[i] == s2[i - s1.len()]);
            }
        }
    }
    assert forall|x: int| 0 <= x < nv && #[trigger] newly(va, vc, x) && vertex_pending(t, rd, x) == 0 implies rc.skip(
        pa,
    ).contains(VertexId(x as usize)) by {
        if vb[x] {
            assert(newly(va, vb, x));
            assert(s1.contains(VertexId(x as usize)));
            let i = choose|i: int| 0 <= i < s1.len() && s1[i] == VertexId(x as usize);
            assert((s1 + s2)[i] == VertexId(x as usize));
        } else {
            assert(newly(vb, vc, x));
            assert(s2.contains(VertexId(x as usize)));
            let i = choose|i: int| 0 <= i < s2.len() && s2[i] == VertexId(x as usize);
            assert((s1 + s2)[s1.len() + i] == VertexId(x as usize));
        }
    }
}


/// A walk that marks vertex `pid` (producer of an unpublished datum) and
/// then visits its inputs, and that appends `pid` to the runnable list when
/// it waits for nothing.
proof fn lemma_visit_close<V>(
    pre: FlowRuntime<V>,
    post: FlowRuntime<V>,
    v0: Seq<bool>,
    vm: Seq<bool>,
    v2: Seq<bool>,
    r0: Seq<VertexId>,
    r2: Seq<VertexId>,
    r3: Seq<VertexId>,
    pv: VertexId,
)
    requires
        pv.0 < pre.template().vertices@.len(),
        v0.len() == pre.template().vertices@.len(),
        !v0[pv.0 as int],
        vm == v0.update(pv.0 as int, true),
        visit_ok(pre, post, vm, v2, r0, r2, pv.0 as int),
        settled(pre.template(), pre.ready(), post.vertex_states(), post.dep_states(), pv.0 as int),
        inputs_visited(pre.template(), pre.ready(), v2, pv.0 as int),
        post.vertex_states()[pv.0 as int].activated == pre.vertex_states()[pv.0 as int].activated,
        produces_unready(pre.template(), pre.ready(), pv.0 as int),
        r3 == (if vertex_pending(pre.template(), pre.ready(), pv.0 as int) == 0 {
            r2.push(pv)
        } else {
            r2
        }),
    ensures
        visit_ok(pre, post, v0, v2, r0, r3, -1),
{
    let pid = pv.0 as int;
    let t = pre.template();
    let rd = pre.ready();
    let nv = t.vertices@.len();
    let np = t.dependencies@.len();
    assert(v2[pid]);
    assert forall|x: int| 0 <= x < nv && v0[x] implies #[trigger] v2[x] by {
        assert(vm[x]);
    }
    assert forall|x: int| 0 <= x < nv && x != -1 && !newly(v0, v2, x) implies #[trigger] post.vertex_states()[x]
        == pre.vertex_states()[x] by {
        assert(x != pid);
        assert(!newly(vm, v2, x));
    }
    assert forall|p: int|
        0 <= p < np && t.dependencies@[p].src.0 != -1 && !newly(v0, v2, t.dependencies@[p].src.0 as int)
            implies #[trigger] post.dep_states()[p] == pre.dep_states()[p] by {
        let x = t.dependencies@[p].src.0 as int;
        assert(x != pid);
        assert(!newly(vm, v2, x));
    }
    assert forall|x: int| 0 <= x < nv && #[trigger] newly(v0, v2, x) implies {
        &&& settled(t, rd, post.vertex_states(), post.dep_states(), x)
        &&& inputs_visited(t, rd, v2, x)
        &&& post.vertex_states()[x].activated == pre.vertex_states()[x].activated
        &&& produces_unready(t, rd, x)
    } by {
        if x != pid {
            assert(newly(vm, v2, x));
        }
    }
    let s2 = r2.skip(r0.len() as int);
    assert forall|j: int| 0 <= j < s2.len() implies s2[j] != pv by {
        assert(s2[j] == r2[r0.len() + j]);
        assert(newly(vm, v2, r2[r0.len() + j].0 as int));
        assert(vm[pid]);
    }
    if vertex_pending(t, rd, pid) == 0 {
        assert(r3.take(r0.len() as int) =~= r2.take(r0.len() as int));
        assert(r3.skip(r0.len() as int) =~= s2.push(pv));
        assert(s2.push(pv).no_duplicates()) by {
            assert forall|i: int, j: int| 0 <= i < s2.push(pv).len() && 0 <= j < s2.push(pv).len() && i != j implies s2.push(
                pv,
            )[i] != s2.push(pv)[j] by {
                if i < s2.len() && j < s2.len() {
                } else if i < s2.len() {
                    assert(s2[i] != pv);
                } else {
                    assert(s2[j] != pv);
                }
            }
        }
        assert forall|j: int| r0.len() <= j < r3.len() implies (#[trigger] r3[j]).0 < nv && newly(
            v0,
            v2,
            r3[j].0 as int,
        ) && vertex_pending(t, rd, r3[j].0 as int) == 0 by {
            if j < r2.len() {
                assert(r3[j] == r2[j]);
                assert(newly(vm, v2, r2[j].0 as int));
            } else {
                assert(r3[j] == pv);
            }
        }
        assert forall|x: int| 0 <= x < nv && #[trigger] newly(v0, v2, x) && vertex_pending(t, rd, x) == 0 implies r3.skip(
            r0.len() as int,
        ).contains(VertexId(x as usize)) by {
            if x == pid {
                assert(s2.push(pv)[s2.len() as int] == pv);
            } else {
                assert(newly(vm, v2, x));
                assert(s2.contains(VertexId(x as usize)));
                let i = choose|i: int| 0 <= i < s2.len() && s2[i] == VertexId(x as usize);
                assert(s2.push(pv)[i] == VertexId(x as usize));
            }
        }
    } else {
        assert forall|j: int| r0.len() <= j < r3.len() implies (#[trigger] r3[j]).0 < nv && newly(
            v0,
            v2,
            r3[j].0 as int,
        ) && vertex_pending(t, rd, r3[j].0 as int) == 0 by {
            assert(r3[j] == r2[j]);
            let x = r2[j].0 as int;
            assert(r2[j].0 < nv && newly(vm, v2, x) && vertex_pending(t, rd, x) == 0);
            assert(vm[pid]);
            assert(x != pid);
            assert(vm[x] == v0[x]);
        }
        assert forall|x: int| 0 <= x < nv && #[trigger] newly(v0, v2, x) && vertex_pending(t, rd, x) == 0 implies r3.skip(
            r0.len() as int,
        ).contains(VertexId(x as usize)) by {
            assert(x != pid);
            assert(newly(vm, v2, x));
        }
    }
}


impl<V> FlowRuntime<V> {
    /// Walks back from datum `id`: when it is unpublished and its producer
    /// was not visited yet, the producer is visited, its counters and those
    /// of its dependencies are set to what is still unpublished, its
    /// unpublished inputs are walked in turn, and it is appended to
    /// `runnable` when it waits for nothing.
    fn rev_visit(&mut self, id: DataId, visited: &mut Vec<bool>, runnable: &mut Vec<VertexId>)
        requires
            old(self).wf(),
            id.0 < old(self).template().datas@.len(),
            old(visited)@.len() == old(self).template().vertices@.len(),
        ensures
            visit_ok(*old(self), *final(self), old(visited)@, final(visited)@, old(runnable)@, final(runnable)@, -1),
            targets_visited(old(self).template(), old(self).ready(), final(visited)@, seq![id]),
            justified(old(self).template(), old(self).ready(), old(visited)@, final(visited)@, seq![id], -1),
            old(self).ready()[id.0 as int] || (old(self).template().datas@[id.0 as int].producer matches Some(p) ==> old(
                visited,
            )@[p.0 as int]) ==> *final(self) == *old(self) && final(visited)@ == old(visited)@ && final(runnable)@ == old(
                runnable,
            )@,
        decreases unvisited(old(visited)@), 0nat,
    {
        proof {
            lemma_visit_refl(*old(self), old(visited)@, old(runnable)@, -1);
            lemma_justified_refl(old(self).template(), old(self).ready(), old(visited)@, seq![id], -1);
        }
        if self.datas[id.0].is_ready() {
            return;
        }
        let template = self.flow_template.clone();
        let producer = template.datas[id.0].producer;
        match producer {
            None => {},
            Some(pid) => {
                if !visited[pid.0] {
                    let ghost v0 = visited@;
                    let ghost r0 = runnable@;
                    visited.set(pid.0, true);
                    proof {
                        lemma_unvisited_mark(v0, pid.0 as int);
                        assert(old(self).template().datas@[id.0 as int].producer == Some(VertexId(pid.0 as usize)));
                        assert(produces_unready(old(self).template(), old(self).ready(), pid.0 as int));
                    }
                    let ghost vm = visited@;
                    self.visit_vertex(pid, visited, runnable);
                    let ghost r2 = runnable@;
                    if self.vertices[pid.0].waiting == 0 {
                        runnable.push(pid);
                    }
                    proof {
                        lemma_visit_close(*old(self), *self, v0, vm, visited@, r0, r2, runnable@, pid);
                        lemma_justified_close(old(self).template(), old(self).ready(), v0, vm, visited@, id, pid);
                    }
                }
            },
        }
    }

    /// Visits vertex `pid`, marked already: sets its counter, then counts
    /// and walks each of its dependencies.
    fn visit_vertex(&mut self, pid: VertexId, visited: &mut Vec<bool>, runnable: &mut Vec<VertexId>)
        requires
            old(self).wf(),
            pid.0 < old(self).template().vertices@.len(),
            old(visited)@.len() == old(self).template().vertices@.len(),
            old(visited)@[pid.0 as int],
        ensures
            visit_ok(*old(self), *final(self), old(visited)@, final(visited)@, old(runnable)@, final(runnable)@, pid.0 as int),
            settled(old(self).template(), old(self).ready(), final(self).vertex_states(), final(self).dep_states(), pid.0 as int),
            inputs_visited(old(self).template(), old(self).ready(), final(visited)@, pid.0 as int),
            final(self).vertex_states()[pid.0 as int].activated == old(self).vertex_states()[pid.0 as int].activated,
            justified(old(self).template(), old(self).ready(), old(visited)@, final(visited)@, Seq::<DataId>::empty(), pid.0 as int),
        decreases unvisited(old(visited)@), 2nat,
    {
        let ghost t = old(self).template();
        let ghost rd = old(self).ready();
        let template = self.flow_template.clone();
        let deps = &template.vertices[pid.0].dependencies;
        let ndeps = deps.len();
        let act = self.vertices[pid.0].activated;
        self.vertices.set(pid.0, VertexState { waiting: ndeps, activated: act });
        proof {
            lemma_visit_refl(*old(self), old(visited)@, old(runnable)@, pid.0 as int);
            lemma_visit_local(*old(self), *old(self), *self, old(visited)@, old(visited)@, old(runnable)@, old(runnable)@, pid.0 as int);
            assert(deps@.take(0) =~= Seq::<DepId>::empty());
            lemma_justified_refl(t, rd, old(visited)@, Seq::<DataId>::empty(), pid.0 as int);
        }
        let mut k: usize = 0;
        while k < ndeps
            invariant
                k <= ndeps,
                ndeps == deps@.len(),
                *template == t,
                t == old(self).template(),
                rd == old(self).ready(),
                t.wf(),
                *deps == t.vertices@[pid.0 as int].dependencies,
                pid.0 < t.vertices@.len(),
                old(visited)@[pid.0 as int],
                visit_ok(*old(self), *self, old(visited)@, visited@, old(runnable)@, runnable@, pid.0 as int),
                self.vertex_states()[pid.0 as int].waiting == ndeps - met_count(t, rd, deps@.take(k as int)),
                self.vertex_states()[pid.0 as int].activated == act,
                act == old(self).vertex_states()[pid.0 as int].activated,
                forall|k2: int|
                    0 <= k2 < k ==> (#[trigger] self.dep_states()[deps@[k2].0 as int]).waiting == unready_count(
                        rd,
                        t.dependencies@[deps@[k2].0 as int].targets@,
                    ),
                forall|k2: int|
                    0 <= k2 < k ==> targets_visited(t, rd, visited@, t.dependencies@[(#[trigger] deps@[k2]).0 as int].targets@),
                unvisited(visited@) <= unvisited(old(visited)@),
                justified(t, rd, old(visited)@, visited@, Seq::<DataId>::empty(), pid.0 as int),
            decreases ndeps - k,
        {
            let dep = deps[k];
            proof {
                lemma_met_le(t, rd, deps@.take(k as int));
                assert(self.wf());
                assert(t.vertices@[pid.0 as int].dependencies@[k as int] == dep);
                assert(dep.0 < t.dependencies@.len());
                assert(t.dependencies@[dep.0 as int].src.0 == pid.0);
                assert(visited@[pid.0 as int]);
            }
            let ghost s1 = *self;
            let ghost v1 = visited@;
            let ghost r1 = runnable@;
            self.visit_dep(pid, dep, visited, runnable);
            proof {
                lemma_visit_trans(*old(self), s1, *self, old(visited)@, v1, visited@, old(runnable)@, r1, runnable@, pid.0 as int);
                lemma_justified_trans(t, rd, old(visited)@, v1, visited@, Seq::<DataId>::empty(), pid.0 as int);
                lemma_unvisited_mono(v1, visited@);
                assert(deps@.take(k + 1).drop_last() =~= deps@.take(k as int));
                assert(deps@.take(k + 1).last() == dep);
                assert forall|k2: int| 0 <= k2 < k + 1 implies (#[trigger] self.dep_states()[deps@[k2].0 as int]).waiting
                    == unready_count(rd, t.dependencies@[deps@[k2].0 as int].targets@) by {
                    if k2 < k {
                        assert(deps@[k2] != deps@[k as int]);
                        assert(t.dependencies@[deps@[k2].0 as int].src == pid);
                        assert(self.dep_states()[deps@[k2].0 as int] == s1.dep_states()[deps@[k2].0 as int]);
                    }
                }
                assert forall|k2: int| 0 <= k2 < k + 1 implies targets_visited(t, rd, visited@, t.dependencies@[(#[trigger] deps@[k2]).0 as int].targets@) by {
                    if k2 < k {
                        let tg = t.dependencies@[deps@[k2].0 as int].targets@;
                        assert(targets_visited(t, rd, v1, tg));
                        assert forall|j: int| 0 <= j < tg.len() implies {
                            let d = #[trigger] tg[j];
                            !rd[d.0 as int] ==> (t.datas@[d.0 as int].producer matches Some(q) ==> visited@[q.0 as int])
                        } by {
                            let d = tg[j];
                            assert(d.0 < t.datas@.len());
                            if let Some(q) = t.datas@[d.0 as int].producer {
                                assert(q.0 < t.vertices@.len());
                                if v1[q.0 as int] {
                                    assert(visited@[q.0 as int]);
                                }
                            }
                        }
                    }
                }
            }
            k = k + 1;
        }
        proof {
            assert(deps@.take(ndeps as int) =~= deps@);
            assert forall|k2: int, j: int|
                0 <= k2 < t.vertices@[pid.0 as int].dependencies@.len() && 0 <= j < t.dependencies@[t.vertices@[pid.0 as int].dependencies@[k2].0 as int].targets@.len()
                    implies {
                    let d = #[trigger] t.dependencies@[t.vertices@[pid.0 as int].dependencies@[k2].0 as int].targets@[j];
                    !rd[d.0 as int] ==> (t.datas@[d.0 as int].producer matches Some(q) ==> visited@[q.0 as int])
                } by {
                assert(deps@[k2] == t.vertices@[pid.0 as int].dependencies@[k2]);
                assert(targets_visited(t, rd, visited@, t.dependencies@[deps@[k2].0 as int].targets@));
            }
        }
    }

    /// Counts the dependency `dep` of the visited vertex `pid`: its counter
    /// is set to the number of its data, lowered for each published one
    /// (and the vertex's counter lowered when that meets it), and each
    /// unpublished one is walked.
    fn visit_dep(&mut self, pid: VertexId, dep: DepId, visited: &mut Vec<bool>, runnable: &mut Vec<VertexId>)
        requires
            old(self).wf(),
            pid.0 < old(self).template().vertices@.len(),
            dep.0 < old(self).template().dependencies@.len(),
            old(self).template().dependencies@[dep.0 as int].src == pid,
            old(visited)@.len() == old(self).template().vertices@.len(),
            old(visited)@[pid.0 as int],
            old(self).vertex_states()[pid.0 as int].waiting >= 1,
            exists|k: int|
                0 <= k < old(self).template().vertices@[pid.0 as int].dependencies@.len()
                    && #[trigger] old(self).template().vertices@[pid.0 as int].dependencies@[k] == dep,
        ensures
            visit_ok(*old(self), *final(self), old(visited)@, final(visited)@, old(runnable)@, final(runnable)@, pid.0 as int),
            final(self).dep_states()[dep.0 as int].waiting == unready_count(
                old(self).ready(),
                old(self).template().dependencies@[dep.0 as int].targets@,
            ),
            final(self).vertex_states()[pid.0 as int].waiting == old(self).vertex_states()[pid.0 as int].waiting - (
            if dep_met(old(self).template(), old(self).ready(), dep) {
                1int
            } else {
                0int
            }),
            final(self).vertex_states()[pid.0 as int].activated == old(self).vertex_states()[pid.0 as int].activated,
            forall|q: int|
                0 <= q < old(self).template().dependencies@.len() && q != dep.0 && old(self).template().dependencies@[q].src
                    == pid ==> #[trigger] final(self).dep_states()[q] == old(self).dep_states()[q],
            targets_visited(
                old(self).template(),
                old(self).ready(),
                final(visited)@,
                old(self).template().dependencies@[dep.0 as int].targets@,
            ),
            justified(old(self).template(), old(self).ready(), old(visited)@, final(visited)@, Seq::<DataId>::empty(), pid.0 as int),
        decreases unvisited(old(visited)@), 1nat,
    {
        let ghost t = old(self).template();
        let ghost rd = old(self).ready();
        let ghost w0 = old(self).vertex_states()[pid.0 as int].waiting;
        let ghost act = old(self).vertex_states()[pid.0 as int].activated;
        let template = self.flow_template.clone();
        let targets = &template.dependencies[dep.0].targets;
        let n = targets.len();
        self.dependencies.set(dep.0, DepState { waiting: n });
        proof {
            lemma_visit_refl(*old(self), old(visited)@, old(runnable)@, pid.0 as int);
            lemma_visit_local(*old(self), *old(self), *self, old(visited)@, old(visited)@, old(runnable)@, old(runnable)@, pid.0 as int);
            assert(targets@.take(0) =~= Seq::<DataId>::empty());
            lemma_justified_refl(t, rd, old(visited)@, Seq::<DataId>::empty(), pid.0 as int);
        }
        let ghost kd = choose|k: int|
            0 <= k < t.vertices@[pid.0 as int].dependencies@.len() && #[trigger] t.vertices@[pid.0 as int].dependencies@[k] == dep;
        let mut j: usize = 0;
        while j < n
            invariant
                j <= n,
                n == targets@.len(),
                *template == t,
                t == old(self).template(),
                rd == old(self).ready(),
                t.wf(),
                *targets == t.dependencies@[dep.0 as int].targets,
                pid.0 < t.vertices@.len(),
                dep.0 < t.dependencies@.len(),
                t.dependencies@[dep.0 as int].src == pid,
                old(visited)@[pid.0 as int],
                w0 >= 1,
                w0 == old(self).vertex_states()[pid.0 as int].waiting,
                act == old(self).vertex_states()[pid.0 as int].activated,
                visit_ok(*old(self), *self, old(visited)@, visited@, old(runnable)@, runnable@, pid.0 as int),
                self.dep_states()[dep.0 as int].waiting == n - j + unready_count(rd, targets@.take(j as int)),
                self.vertex_states()[pid.0 as int].waiting == w0 - (if j == n && n > 0 && unready_count(
                    rd,
                    targets@.take(j as int),
                ) == 0 {
                    1int
                } else {
                    0int
                }),
                self.vertex_states()[pid.0 as int].activated == act,
                forall|q: int|
                    0 <= q < t.dependencies@.len() && q != dep.0 && t.dependencies@[q].src == pid
                        ==> #[trigger] self.dep_states()[q] == old(self).dep_states()[q],
                targets_visited(t, rd, visited@, targets@.take(j as int)),
                unvisited(visited@) <= unvisited(old(visited)@),
                0 <= kd < t.vertices@[pid.0 as int].dependencies@.len(),
                t.vertices@[pid.0 as int].dependencies@[kd] == dep,
                justified(t, rd, old(visited)@, visited@, Seq::<DataId>::empty(), pid.0 as int),
            decreases n - j,
        {
            let did = targets[j];
            proof {
                assert(t.dependencies@[dep.0 as int].targets@[j as int] == did);
                assert(did.0 < t.datas@.len());
                assert(targets@.take(j + 1).drop_last() =~= targets@.take(j as int));
                assert(targets@.take(j + 1).last() == did);
                assert(self.ready() == rd);
            }
            let ghost s1 = *self;
            let ghost v1 = visited@;
            let ghost r1 = runnable@;
            if self.datas[did.0].is_ready() {
                let w = self.dependencies[dep.0].waiting;
                self.dependencies.set(dep.0, DepState { waiting: w - 1 });
                if w == 1 {
                    let vw = self.vertices[pid.0].waiting;
                    let a = self.vertices[pid.0].activated;
                    self.vertices.set(pid.0, VertexState { waiting: vw - 1, activated: a });
                }
                proof {
                    lemma_visit_local(*old(self), s1, *self, old(visited)@, visited@, old(runnable)@, runnable@, pid.0 as int);
                }
            } else {
                self.rev_visit(did, visited, runnable);
                proof {
                    lemma_visit_weaken(s1, *self, v1, visited@, r1, runnable@, pid.0 as int);
                    lemma_visit_trans(*old(self), s1, *self, old(visited)@, v1, visited@, old(runnable)@, r1, runnable@, pid.0 as int);
                    lemma_unvisited_mono(v1, visited@);
                    assert(!newly(v1, visited@, pid.0 as int));
                    assert(self.vertex_states()[pid.0 as int] == s1.vertex_states()[pid.0 as int]);
                    assert(self.dep_states()[dep.0 as int] == s1.dep_states()[dep.0 as int]);
                    assert forall|q: int|
                        0 <= q < t.dependencies@.len() && q != dep.0 && t.dependencies@[q].src == pid
                            implies #[trigger] self.dep_states()[q] == old(self).dep_states()[q] by {
                        assert(self.dep_states()[q] == s1.dep_states()[q]);
                    }
                    assert(targets_visited(t, rd, visited@, seq![did]));
                    assert(seq![did][0] == did);
                    assert(t.dependencies@[t.vertices@[pid.0 as int].dependencies@[kd].0 as int].targets@[j as int] == did);
                    assert(feeds(t, did.0 as int, pid.0 as int));
                    lemma_justified_anchor(t, rd, v1, visited@, did, pid.0 as int);
                    lemma_justified_trans(t, rd, old(visited)@, v1, visited@, Seq::<DataId>::empty(), pid.0 as int);
                }
            }
            proof {
                let tk = targets@.take(j + 1);
                assert forall|i: int| 0 <= i < tk.len() implies {
                    let d = #[trigger] tk[i];
                    !rd[d.0 as int] ==> (t.datas@[d.0 as int].producer matches Some(q) ==> visited@[q.0 as int])
                } by {
                    let d = tk[i];
                    if i < j {
                        assert(targets@.take(j as int)[i] == d);
                        assert(d.0 < t.datas@.len());
                        if let Some(q) = t.datas@[d.0 as int].producer {
                            assert(q.0 < t.vertices@.len());
                            if !rd[d.0 as int] {
                                assert(v1[q.0 as int]);
                                assert(visited@[q.0 as int]);
                            }
                        }
                    } else {
                        assert(d == did);
                        if !rd[d.0 as int] {
                            assert(seq![did][0] == did);
                        }
                    }
                }
            }
            j = j + 1;
        }
        proof {
            assert(targets@.take(n as int) =~= targets@);
        }
    }

    /// Prepares a run that computes the data `targets`: walks back from
    /// each of them, and returns the vertices that can start at once.
    pub fn activate(&mut self, targets: &[DataId]) -> (r: Result<Vec<VertexId>, FlowError>)
        requires
            old(self).wf(),
            forall|i: int| 0 <= i < targets@.len() ==> (#[trigger] targets@[i]).0 < old(self).template().datas@.len(),
        ensures
            r is Ok,
            r matches Ok(rn) ==> activated_from(*old(self), *final(self), targets@, rn@),
    {
        let ghost t = old(self).template();
        let ghost rd = old(self).ready();
        let ghost f = none_visited(t.vertices@.len());
        let n = self.flow_template.vertices.len();
        let mut visited: Vec<bool> = Vec::new();
        while visited.len() < n
            invariant
                n == t.vertices@.len(),
                visited@.len() <= n,
                forall|i: int| 0 <= i < visited@.len() ==> !(#[trigger] visited@[i]),
            decreases n - visited@.len(),
        {
            visited.push(false);
        }
        let mut runnable: Vec<VertexId> = Vec::new();
        proof {
            assert(visited@ =~= f);
            lemma_visit_refl(*old(self), f, runnable@, -1);
            assert(targets@.take(0) =~= Seq::<DataId>::empty());
            lemma_justified_refl(t, rd, f, targets@, -1);
        }
        let mut i: usize = 0;
        while i < targets.len()
            invariant
                i <= targets@.len(),
                t == old(self).template(),
                rd == old(self).ready(),
                f == none_visited(t.vertices@.len()),
                forall|i: int| 0 <= i < targets@.len() ==> (#[trigger] targets@[i]).0 < t.datas@.len(),
                visit_ok(*old(self), *self, f, visited@, Seq::empty(), runnable@, -1),
                targets_visited(t, rd, visited@, targets@.take(i as int)),
                justified(t, rd, f, visited@, targets@, -1),
            decreases targets@.len() - i,
        {
            let ghost s1 = *self;
            let ghost v1 = visited@;
            let ghost r1 = runnable@;
            proof {
                assert(self.ready() == rd);
            }
            self.rev_visit(targets[i], &mut visited, &mut runnable);
            proof {
                lemma_visit_trans(*old(self), s1, *self, f, v1, visited@, Seq::empty(), r1, runnable@, -1);
                lemma_justified_widen(t, rd, v1, visited@, targets@, i as int);
                lemma_justified_trans(t, rd, f, v1, visited@, targets@, -1);
                let tk = targets@.take(i + 1);
                assert forall|j: int| 0 <= j < tk.len() implies {
                    let d = #[trigger] tk[j];
                    !rd[d.0 as int] ==> (t.datas@[d.0 as int].producer matches Some(q) ==> visited@[q.0 as int])
                } by {
                    let d = tk[j];
                    if j < i {
                        assert(targets@.take(i as int)[j] == d);
                        assert(d.0 < t.datas@.len());
                        if let Some(q) = t.datas@[d.0 as int].producer {
                            assert(q.0 < t.vertices@.len());
                            if !rd[d.0 as int] {
                                assert(v1[q.0 as int]);
                            }
                        }
                    } else {
                        assert(d == targets@[i as int]);
                        assert(seq![targets@[i as int]][0] == d);
                    }
                }
            }
            i = i + 1;
        }
        proof {
            assert(targets@.take(targets@.len() as int) =~= targets@);
            assert(visit_ok(
                *old(self),
                *self,
                none_visited(old(self).template().vertices@.len()),
                visited@,
                Seq::<VertexId>::empty(),
                runnable@,
                -1,
            ));
            assert(targets_visited(old(self).template(), old(self).ready(), visited@, targets@));
            assert(activated_from(*old(self), *self, targets@, runnable@));
        }
        Ok(runnable)
    }
}


/// Number of occurrences of `p` in `s`.
pub open spec fn count_dep(s: Seq<DepId>, p: DepId) -> nat
    decreases s.len(),
{
    if s.len() == 0 {
        0
    } else {
        count_dep(s.drop_last(), p) + (if s.last() == p { 1nat } else { 0nat })
    }
}

/// Number of occurrences of `d` in `s`.
pub open spec fn count_data(s: Seq<DataId>, d: DataId) -> nat
    decreases s.len(),
{
    if s.len() == 0 {
        0
    } else {
        count_data(s.drop_last(), d) + (if s.last() == d { 1nat } else { 0nat })
    }
}

/// The links of a template agree: a datum lists each dependency as a
/// successor once per time the dependency waits for the datum, and each
/// dependency is listed by its vertex.
pub open spec fn links_consistent(t: FlowTemplate) -> bool {
    &&& forall|d: int, p: int|
        0 <= d < t.datas@.len() && 0 <= p < t.dependencies@.len() ==> count_dep(
            #[trigger] t.datas@[d].successors@,
            DepId(p as usize),
        ) == count_data(#[trigger] t.dependencies@[p].targets@, DataId(d as usize))
    &&& forall|p: int|
        0 <= p < t.dependencies@.len() ==> exists|k: int|
            0 <= k < t.vertices@[(#[trigger] t.dependencies@[p]).src.0 as int].dependencies@.len()
                && t.vertices@[t.dependencies@[p].src.0 as int].dependencies@[k] == DepId(p as usize)
}

/// `s` lists vertex `x`.
pub open spec fn lists_vertex(s: Seq<VertexId>, x: int) -> bool {
    exists|j: int| 0 <= j < s.len() && s[j].0 == x
}

/// Number of the dependencies of `l` that had a positive counter in `ds0`
/// and have a zero counter in `dk`.
pub open spec fn newly_zero(ds0: Seq<DepState>, dk: Seq<DepState>, l: Seq<DepId>) -> nat
    decreases l.len(),
{
    if l.len() == 0 {
        0
    } else {
        newly_zero(ds0, dk, l.drop_last()) + (if ds0[l.last().0 as int].waiting > 0 && dk[l.last().0 as int].waiting
            == 0 {
            1nat
        } else {
            0nat
        })
    }
}

proof fn lemma_unready_publish(rd: Seq<bool>, targets: Seq<DataId>, d: DataId)
    requires
        0 <= d.0 < rd.len(),
        !rd[d.0 as int],
        forall|i: int| 0 <= i < targets.len() ==> (#[trigger] targets[i]).0 < rd.len(),
    ensures
        unready_count(rd.update(d.0 as int, true), targets) + count_data(targets, d) == unready_count(rd, targets),
        count_data(targets, d) <= unready_count(rd, targets),
    decreases targets.len(),
{
    if targets.len() > 0 {
        let init = targets.drop_last();
        assert forall|i: int| 0 <= i < init.len() implies (#[trigger] init[i]).0 < rd.len() by {
            assert(init[i] == targets[i]);
        }
        lemma_unready_publish(rd, init, d);
        let last = targets.last();
        assert(last == targets[targets.len() - 1]);
        assert(last.0 < rd.len());
        if last.0 == d.0 {
            assert(last == d);
            assert(rd.update(d.0 as int, true)[last.0 as int]);
        } else {
            assert(last != d);
            assert(rd.update(d.0 as int, true)[last.0 as int] == rd[last.0 as int]);
        }
    }
}

proof fn lemma_count_dep_prefix(s: Seq<DepId>, p: DepId, k: int)
    requires
        0 <= k <= s.len(),
    ensures
        count_dep(s.take(k), p) <= count_dep(s, p),
    decreases s.len() - k,
{
    if k < s.len() {
        lemma_count_dep_prefix(s, p, k + 1);
        assert(s.take(k + 1).drop_last() =~= s.take(k));
    } else {
        assert(s.take(k) =~= s);
    }
}

/// A zero-to-zero list: nothing newly zero when no counter changed.
proof fn lemma_newly_zero_same(ds0: Seq<DepState>, l: Seq<DepId>)
    ensures
        newly_zero(ds0, ds0, l) == 0,
    decreases l.len(),
{
    if l.len() > 0 {
        lemma_newly_zero_same(ds0, l.drop_last());
    }
}

/// Changing the counter of `p` only: unchanged when `p` is not listed;
/// when it is listed once, the count moves by the change of `p`'s status.
proof fn lemma_newly_zero_update(ds0: Seq<DepState>, dk: Seq<DepState>, l: Seq<DepId>, p: DepId, w: usize)
    requires
        l.no_duplicates(),
        0 <= p.0 < dk.len(),
        forall|i: int| 0 <= i < l.len() ==> (#[trigger] l[i]).0 < dk.len(),
    ensures
        !l.contains(p) ==> newly_zero(ds0, dk.update(p.0 as int, DepState { waiting: w }), l) == newly_zero(ds0, dk, l),
        l.contains(p) ==> newly_zero(ds0, dk.update(p.0 as int, DepState { waiting: w }), l) + (if ds0[p.0 as int].waiting
            > 0 && dk[p.0 as int].waiting == 0 {
            1int
        } else {
            0int
        }) == newly_zero(ds0, dk, l) + (if ds0[p.0 as int].waiting > 0 && w == 0 {
            1int
        } else {
            0int
        }),
    decreases l.len(),
{
    let dk2 = dk.update(p.0 as int, DepState { waiting: w });
    if l.len() > 0 {
        let init = l.drop_last();
        assert(init.no_duplicates()) by {
            assert forall|i: int, j: int| 0 <= i < init.len() && 0 <= j < init.len() && i != j implies init[i] != init[j] by {
                assert(init[i] == l[i]);
                assert(init[j] == l[j]);
            }
        }
        assert forall|i: int| 0 <= i < init.len() implies (#[trigger] init[i]).0 < dk.len() by {
            assert(init[i] == l[i]);
        }
        lemma_newly_zero_update(ds0, dk, init, p, w);
        let q = l.last();
        assert(q == l[l.len() - 1]);
        let t2: nat = if ds0[q.0 as int].waiting > 0 && dk2[q.0 as int].waiting == 0 { 1nat } else { 0nat };
        let t1: nat = if ds0[q.0 as int].waiting > 0 && dk[q.0 as int].waiting == 0 { 1nat } else { 0nat };
        assert(newly_zero(ds0, dk2, l) == newly_zero(ds0, dk2, init) + t2);
        assert(newly_zero(ds0, dk, l) == newly_zero(ds0, dk, init) + t1);
        if q == p {
            assert(!init.contains(p)) by {
                if init.contains(p) {
                    let i = choose|i: int| 0 <= i < init.len() && init[i] == p;
                    assert(l[i] == l[l.len() - 1]);
                }
            }
            assert(l.contains(p)) by {
                assert(l[l.len() - 1] == p);
            }
            assert(dk2[p.0 as int].waiting == w);
        } else {
            assert(l.contains(p) ==> init.contains(p)) by {
                if l.contains(p) {
                    let i = choose|i: int| 0 <= i < l.len() && l[i] == p;
                    assert(i != l.len() - 1);
                    assert(init[i] == p);
                }
            }
            assert(init.contains(p) ==> l.contains(p)) by {
                if init.contains(p) {
                    let i = choose|i: int| 0 <= i < init.len() && init[i] == p;
                    assert(l[i] == p);
                }
            }
            assert(q.0 != p.0);
            assert(dk2[q.0 as int] == dk[q.0 as int]);
        }
    } else {
        assert(!l.contains(p));
    }
}


/// The counters of the dependencies of `l` count exactly what `rd` leaves
/// unpublished.
pub open spec fn deps_counted(t: FlowTemplate, rd: Seq<bool>, ds: Seq<DepState>, l: Seq<DepId>) -> bool {
    forall|j: int|
        0 <= j < l.len() ==> (#[trigger] ds[l[j].0 as int]).waiting == unready_count(
            rd,
            t.dependencies@[l[j].0 as int].targets@,
        )
}

proof fn lemma_newly_zero_bound(t: FlowTemplate, rd: Seq<bool>, ds0: Seq<DepState>, dk: Seq<DepState>, l: Seq<DepId>)
    requires
        deps_counted(t, rd, ds0, l),
    ensures
        newly_zero(ds0, dk, l) + met_count(t, rd, l) <= l.len(),
    decreases l.len(),
{
    if l.len() > 0 {
        let init = l.drop_last();
        assert(deps_counted(t, rd, ds0, init)) by {
            assert forall|j: int| 0 <= j < init.len() implies (#[trigger] ds0[init[j].0 as int]).waiting == unready_count(
                rd,
                t.dependencies@[init[j].0 as int].targets@,
            ) by {
                assert(init[j] == l[j]);
            }
        }
        lemma_newly_zero_bound(t, rd, ds0, dk, init);
        let q = l.last();
        assert(q == l[l.len() - 1]);
        assert(ds0[q.0 as int].waiting == unready_count(rd, t.dependencies@[q.0 as int].targets@));
    }
}

proof fn lemma_newly_zero_final(
    t: FlowTemplate,
    rd: Seq<bool>,
    rd1: Seq<bool>,
    ds0: Seq<DepState>,
    dk: Seq<DepState>,
    l: Seq<DepId>,
)
    requires
        deps_counted(t, rd, ds0, l),
        deps_counted(t, rd1, dk, l),
        forall|j: int|
            0 <= j < l.len() ==> unready_count(rd1, t.dependencies@[(#[trigger] l[j]).0 as int].targets@)
                <= unready_count(rd, t.dependencies@[l[j].0 as int].targets@),
    ensures
        newly_zero(ds0, dk, l) + met_count(t, rd, l) == met_count(t, rd1, l),
    decreases l.len(),
{
    if l.len() > 0 {
        let init = l.drop_last();
        assert(deps_counted(t, rd, ds0, init)) by {
            assert forall|j: int| 0 <= j < init.len() implies (#[trigger] ds0[init[j].0 as int]).waiting == unready_count(
                rd,
                t.dependencies@[init[j].0 as int].targets@,
            ) by {
                assert(init[j] == l[j]);
            }
        }
        assert(deps_counted(t, rd1, dk, init)) by {
            assert forall|j: int| 0 <= j < init.len() implies (#[trigger] dk[init[j].0 as int]).waiting == unready_count(
                rd1,
                t.dependencies@[init[j].0 as int].targets@,
            ) by {
                assert(init[j] == l[j]);
            }
        }
        assert forall|j: int|
            0 <= j < init.len() implies unready_count(rd1, t.dependencies@[(#[trigger] init[j]).0 as int].targets@)
                <= unready_count(rd, t.dependencies@[init[j].0 as int].targets@) by {
            assert(init[j] == l[j]);
        }
        lemma_newly_zero_final(t, rd, rd1, ds0, dk, init);
        let q = l.last();
        assert(q == l[l.len() - 1]);
        let tg = t.dependencies@[q.0 as int].targets@;
        assert(ds0[q.0 as int].waiting == unready_count(rd, tg));
        assert(dk[q.0 as int].waiting == unready_count(rd1, tg));
        assert(unready_count(rd1, tg) <= unready_count(rd, tg));
        lemma_unready_le(rd, tg);
    }
}


proof fn lemma_lists_push(s: Seq<VertexId>, v: VertexId, x: int)
    ensures
        lists_vertex(s.push(v), x) <==> (lists_vertex(s, x) || v.0 == x),
{
    if lists_vertex(s, x) {
        let j = choose|j: int| 0 <= j < s.len() && s[j].0 == x;
        assert(s.push(v)[j] == s[j]);
    }
    if v.0 == x {
        assert(s.push(v)[s.len() as int] == v);
    }
    if lists_vertex(s.push(v), x) {
        let j = choose|j: int| 0 <= j < s.push(v).len() && s.push(v)[j].0 == x;
        if j < s.len() {
            assert(s.push(v)[j] == s[j]);
        }
    }
}

/// The counters of the settled vertex `x` and of its dependencies while the
/// first `k` successors of datum `d` are counted.
proof fn lemma_propagate_vertex(
    t: FlowTemplate,
    rd: Seq<bool>,
    ds: Seq<DepState>,
    vs: Seq<VertexState>,
    d: DataId,
    x: int,
    k: int,
)
    requires
        t.wf(),
        links_consistent(t),
        d.0 < t.datas@.len(),
        rd.len() == t.datas@.len(),
        !rd[d.0 as int],
        ds.len() == t.dependencies@.len(),
        vs.len() == t.vertices@.len(),
        0 <= x < t.vertices@.len(),
        settled(t, rd, vs, ds, x),
        0 <= k <= t.datas@[d.0 as int].successors@.len(),
    ensures
        ({
            let succ = t.datas@[d.0 as int].successors@;
            let l = t.vertices@[x].dependencies@;
            let r = propagate(t, ds, vs, succ.take(k));
            &&& r.0.len() == ds.len()
            &&& r.1.len() == vs.len()
            &&& forall|j: int|
                0 <= j < l.len() ==> (#[trigger] r.0[l[j].0 as int]).waiting == ds[l[j].0 as int].waiting - count_dep(
                    succ.take(k),
                    l[j],
                )
            &&& r.1[x].waiting == vs[x].waiting - newly_zero(ds, r.0, l)
            &&& r.1[x].activated == vs[x].activated
            &&& lists_vertex(r.2, x) <==> (vs[x].waiting > 0 && r.1[x].waiting == 0)
        }),
    decreases k,
{
    let succ = t.datas@[d.0 as int].successors@;
    let l = t.vertices@[x].dependencies@;
    let nd = t.datas@.len();
    let np = t.dependencies@.len();
    let nv = t.vertices@.len();
    if k == 0 {
        assert(succ.take(0) =~= Seq::<DepId>::empty());
        lemma_newly_zero_same(ds, l);
        assert(!lists_vertex(Seq::<VertexId>::empty(), x));
    } else {
        let pre = succ.take(k - 1);
        lemma_propagate_vertex(t, rd, ds, vs, d, x, k - 1);
        assert(succ.take(k).drop_last() =~= pre);
        let p = succ[k - 1];
        assert(succ.take(k).last() == p);
        assert(p.0 < np) by {
            assert(t.datas@[d.0 as int].successors@[k - 1] == p);
        }
        let r0 = propagate(t, ds, vs, pre);
        let (d0, v0, s0) = r0;
        let w = d0[p.0 as int].waiting;
        let d1 = d0.update(p.0 as int, DepState { waiting: wrapping_dec(w) });
        let r = propagate(t, ds, vs, succ.take(k));
        assert(r.0 == d1);
        assert(forall|j: int| 0 <= j < l.len() ==> (#[trigger] l[j]).0 < np) by {
            assert forall|j: int| 0 <= j < l.len() implies (#[trigger] l[j]).0 < np by {
                assert(t.vertices@[x].dependencies@[j] == l[j]);
            }
        }
        assert(l.no_duplicates()) by {
            assert forall|i: int, j: int| 0 <= i < l.len() && 0 <= j < l.len() && i != j implies l[i] != l[j] by {
                assert(t.vertices@[x].dependencies@[i] == l[i]);
                assert(t.vertices@[x].dependencies@[j] == l[j]);
            }
        }
        assert forall|q: DepId| #[trigger] count_dep(succ.take(k), q) == count_dep(pre, q) + (if q == p {
            1nat
        } else {
            0nat
        }) by {}
        if l.contains(p) {
            let j0 = choose|j: int| 0 <= j < l.len() && l[j] == p;
            assert(t.vertices@[x].dependencies@[j0] == p);
            assert(t.dependencies@[p.0 as int].src.0 == x);
            let tg = t.dependencies@[p.0 as int].targets@;
            assert forall|i: int| 0 <= i < tg.len() implies (#[trigger] tg[i]).0 < rd.len() by {
                assert(t.dependencies@[p.0 as int].targets@[i] == tg[i]);
            }
            lemma_unready_publish(rd, tg, d);
            lemma_count_dep_prefix(succ, p, k);
            assert(count_dep(succ, DepId(p.0 as usize)) == count_data(tg, DataId(d.0 as usize)));
            assert(DepId(p.0 as usize) == p);
            assert(DataId(d.0 as usize) == d);
            assert(ds[p.0 as int].waiting == unready_count(rd, tg)) by {
                assert(ds[t.vertices@[x].dependencies@[j0].0 as int].waiting == unready_count(
                    rd,
                    t.dependencies@[t.vertices@[x].dependencies@[j0].0 as int].targets@,
                ));
            }
            assert(d0[l[j0].0 as int].waiting == ds[l[j0].0 as int].waiting - count_dep(pre, l[j0]));
            assert(w >= 1);
            assert(wrapping_dec(w) == w - 1);
            lemma_newly_zero_update(ds, d0, l, p, (w - 1) as usize);
            assert(newly_zero(ds, d1, l) == newly_zero(ds, d0, l) + (if w == 1 { 1nat } else { 0nat }));
            assert forall|j: int| 0 <= j < l.len() implies (#[trigger] d1[l[j].0 as int]).waiting == ds[l[j].0 as int].waiting
                - count_dep(succ.take(k), l[j]) by {
                if l[j] == p {
                } else {
                    assert(l[j].0 != p.0);
                    assert(d1[l[j].0 as int] == d0[l[j].0 as int]);
                }
            }
            if w == 1 {
                let src = t.dependencies@[p.0 as int].src;
                assert(src.0 == x);
                let vw = v0[src.0 as int].waiting;
                assert(deps_counted(t, rd, ds, l)) by {
                    assert forall|j: int| 0 <= j < l.len() implies (#[trigger] ds[l[j].0 as int]).waiting == unready_count(
                        rd,
                        t.dependencies@[l[j].0 as int].targets@,
                    ) by {
                        assert(t.vertices@[x].dependencies@[j] == l[j]);
                    }
                }
                lemma_newly_zero_bound(t, rd, ds, d1, l);
                assert(vw >= 1);
                let v1 = v0.update(
                    src.0 as int,
                    VertexState { waiting: wrapping_dec(vw), activated: v0[src.0 as int].activated },
                );
                assert(r.1 == v1);
                assert(r.2 == (if vw == 1 { s0.push(src) } else { s0 }));
                lemma_lists_push(s0, src, x);
            } else {
                assert(r.1 == v0);
                assert(r.2 == s0);
            }
        } else {
            assert forall|j: int| 0 <= j < l.len() implies (#[trigger] d1[l[j].0 as int]).waiting == ds[l[j].0 as int].waiting
                - count_dep(succ.take(k), l[j]) by {
                assert(l[j] != p);
                assert(l[j].0 != p.0);
                assert(d1[l[j].0 as int] == d0[l[j].0 as int]);
            }
            lemma_newly_zero_update(ds, d0, l, p, wrapping_dec(w));
            if w == 1 {
                let src = t.dependencies@[p.0 as int].src;
                assert(src.0 < nv);
                assert(src.0 != x) by {
                    if src.0 == x {
                        let kk = choose|kk: int|
                            0 <= kk < t.vertices@[t.dependencies@[p.0 as int].src.0 as int].dependencies@.len()
                                && t.vertices@[t.dependencies@[p.0 as int].src.0 as int].dependencies@[kk] == DepId(
                                p.0 as usize,
                            );
                        assert(DepId(p.0 as usize) == p);
                        assert(l[kk] == p);
                    }
                }
                let vw = v0[src.0 as int].waiting;
                let v1 = v0.update(
                    src.0 as int,
                    VertexState { waiting: wrapping_dec(vw), activated: v0[src.0 as int].activated },
                );
                assert(r.1 == v1);
                assert(v1[x] == v0[x]);
                assert(r.2 == (if vw == 1 { s0.push(src) } else { s0 }));
                lemma_lists_push(s0, src, x);
            } else {
                assert(r.1 == v0);
                assert(r.2 == s0);
            }
        }
    }
}

/// Publishing an awaited datum `d` keeps exact counters exact: for a vertex
/// `x` whose counters and those of its dependencies count what `rd` leaves
/// unpublished, counting the successors of `d` (what `on_data_published`
/// does after `publish_data`) leaves them counting what is unpublished once
/// `d` is published; and `x` is listed to be started exactly when this
/// publication met its last unmet dependency.
pub proof fn law_publication_keeps_counts(
    t: FlowTemplate,
    rd: Seq<bool>,
    ds: Seq<DepState>,
    vs: Seq<VertexState>,
    d: DataId,
    x: int,
)
    requires
        t.wf(),
        links_consistent(t),
        d.0 < t.datas@.len(),
        rd.len() == t.datas@.len(),
        !rd[d.0 as int],
        ds.len() == t.dependencies@.len(),
        vs.len() == t.vertices@.len(),
        0 <= x < t.vertices@.len(),
        settled(t, rd, vs, ds, x),
    ensures
        ({
            let r = propagate(t, ds, vs, t.datas@[d.0 as int].successors@);
            let rd1 = rd.update(d.0 as int, true);
            &&& settled(t, rd1, r.1, r.0, x)
            &&& r.1[x].activated == vs[x].activated
            &&& lists_vertex(r.2, x) <==> (vertex_pending(t, rd, x) > 0 && vertex_pending(t, rd1, x) == 0)
        }),
{
    let succ = t.datas@[d.0 as int].successors@;
    let l = t.vertices@[x].dependencies@;
    let rd1 = rd.update(d.0 as int, true);
    lemma_propagate_vertex(t, rd, ds, vs, d, x, succ.len() as int);
    assert(succ.take(succ.len() as int) =~= succ);
    let r = propagate(t, ds, vs, succ);
    assert forall|j: int| 0 <= j < l.len() implies (#[trigger] r.0[l[j].0 as int]).waiting == unready_count(
        rd1,
        t.dependencies@[l[j].0 as int].targets@,
    ) && unready_count(rd1, t.dependencies@[l[j].0 as int].targets@) <= unready_count(
        rd,
        t.dependencies@[l[j].0 as int].targets@,
    ) by {
        let p = l[j];
        assert(t.vertices@[x].dependencies@[j] == p);
        assert(p.0 < t.dependencies@.len());
        let tg = t.dependencies@[p.0 as int].targets@;
        assert forall|i: int| 0 <= i < tg.len() implies (#[trigger] tg[i]).0 < rd.len() by {
            assert(t.dependencies@[p.0 as int].targets@[i] == tg[i]);
        }
        lemma_unready_publish(rd, tg, d);
        assert(count_dep(succ, DepId(p.0 as usize)) == count_data(tg, DataId(d.0 as usize)));
        assert(DepId(p.0 as usize) == p);
        assert(DataId(d.0 as usize) == d);
        assert(ds[t.vertices@[x].dependencies@[j].0 as int].waiting == unready_count(
            rd,
            t.dependencies@[t.vertices@[x].dependencies@[j].0 as int].targets@,
        ));
    }
    assert(deps_counted(t, rd, ds, l)) by {
        assert forall|j: int| 0 <= j < l.len() implies (#[trigger] ds[l[j].0 as int]).waiting == unready_count(
            rd,
            t.dependencies@[l[j].0 as int].targets@,
        ) by {
            assert(t.vertices@[x].dependencies@[j] == l[j]);
        }
    }
    assert(deps_counted(t, rd1, r.0, l));
    assert forall|j: int|
        0 <= j < l.len() implies unready_count(rd1, t.dependencies@[(#[trigger] l[j]).0 as int].targets@)
            <= unready_count(rd, t.dependencies@[l[j].0 as int].targets@) by {
        assert(r.0[l[j].0 as int].waiting == unready_count(rd1, t.dependencies@[l[j].0 as int].targets@));
    }
    lemma_newly_zero_final(t, rd, rd1, ds, r.0, l);
    lemma_met_le(t, rd, l);
    lemma_met_le(t, rd1, l);
    assert forall|k: int| 0 <= k < l.len() implies (#[trigger] r.0[t.vertices@[x].dependencies@[k].0 as int]).waiting
        == unready_count(rd1, t.dependencies@[t.vertices@[x].dependencies@[k].0 as int].targets@) by {
        assert(t.vertices@[x].dependencies@[k] == l[k]);
        assert(r.0[l[k].0 as int].waiting == unready_count(rd1, t.dependencies@[l[k].0 as int].targets@));
    }
}


/// The vertex states after `try_activate(v)`, and what it returns.
pub open spec fn after_try_activate(vs: Seq<VertexState>, v: int) -> (Seq<VertexState>, bool) {
    (vs.update(v, VertexState { waiting: vs[v].waiting, activated: true }), !vs[v].activated)
}

/// How many of the calls `try_activate(calls[0])`, `try_activate(calls[1])`,
/// ... made on `vs` start vertex `v`.
pub open spec fn started_count(vs: Seq<VertexState>, calls: Seq<VertexId>, v: int) -> nat
    decreases calls.len(),
{
    if calls.len() == 0 {
        0
    } else {
        let (vs1, first) = after_try_activate(vs, calls[0].0 as int);
        (if first && calls[0].0 == v { 1nat } else { 0nat }) + started_count(vs1, calls.skip(1), v)
    }
}

/// Whatever calls of `try_activate` are made, in whatever order, each
/// vertex is started at most once per run, and not at all once it was.
pub proof fn law_started_at_most_once(vs: Seq<VertexState>, calls: Seq<VertexId>, v: int)
    requires
        0 <= v < vs.len(),
        forall|k: int| 0 <= k < calls.len() ==> (#[trigger] calls[k]).0 < vs.len(),
    ensures
        started_count(vs, calls, v) <= (if vs[v].activated { 0nat } else { 1nat }),
    decreases calls.len(),
{
    if calls.len() > 0 {
        let (vs1, first) = after_try_activate(vs, calls[0].0 as int);
        let rest = calls.skip(1);
        assert forall|k: int| 0 <= k < rest.len() implies (#[trigger] rest[k]).0 < vs1.len() by {
            assert(rest[k] == calls[k + 1]);
        }
        law_started_at_most_once(vs1, rest, v);
        if calls[0].0 == v {
            assert(vs1[v].activated);
        } else {
            assert(vs1[v] == vs[v]);
        }
    }
}


/// Datum `d` is an input of vertex `y`: a target of one of its dependencies.
pub open spec fn feeds(t: FlowTemplate, d: int, y: int) -> bool {
    exists|k: int, j: int|
        0 <= k < t.vertices@[y].dependencies@.len() && 0 <= j < t.dependencies@[t.vertices@[y].dependencies@[k].0 as int].targets@.len()
            && (#[trigger] t.dependencies@[t.vertices@[y].dependencies@[k].0 as int].targets@[j]).0 == d
}

/// `roots` holds datum `d`.
pub open spec fn in_data(roots: Seq<DataId>, d: int) -> bool {
    exists|j: int| 0 <= j < roots.len() && (#[trigger] roots[j]).0 == d
}

/// Vertex `x` produces the unpublished datum `d`, which is one of `roots`,
/// an input of the vertex `anchor`, or an input of a vertex visited by the
/// walk from `vis0` to `vis1`.
pub open spec fn needed_by(
    t: FlowTemplate,
    rd: Seq<bool>,
    vis0: Seq<bool>,
    vis1: Seq<bool>,
    roots: Seq<DataId>,
    anchor: int,
    x: int,
    d: int,
) -> bool {
    &&& 0 <= d < t.datas@.len()
    &&& !rd[d]
    &&& t.datas@[d].producer == Some(VertexId(x as usize))
    &&& (in_data(roots, d) || (0 <= anchor < t.vertices@.len() && feeds(t, d, anchor)) || exists|y: int|
        0 <= y < t.vertices@.len() && newly(vis0, vis1, y) && #[trigger] feeds(t, d, y))
}

/// Every vertex visited by the walk from `vis0` to `vis1` is needed: it
/// produces an unpublished datum that is one of `roots`, an input of
/// `anchor`, or an input of another vertex the walk visited.
pub open spec fn justified(
    t: FlowTemplate,
    rd: Seq<bool>,
    vis0: Seq<bool>,
    vis1: Seq<bool>,
    roots: Seq<DataId>,
    anchor: int,
) -> bool {
    forall|x: int|
        0 <= x < t.vertices@.len() && #[trigger] newly(vis0, vis1, x) ==> exists|d: int|
            #[trigger] needed_by(t, rd, vis0, vis1, roots, anchor, x, d)
}

proof fn lemma_justified_refl(t: FlowTemplate, rd: Seq<bool>, vis: Seq<bool>, roots: Seq<DataId>, anchor: int)
    ensures
        justified(t, rd, vis, vis, roots, anchor),
{
}

proof fn lemma_justified_trans(
    t: FlowTemplate,
    rd: Seq<bool>,
    va: Seq<bool>,
    vb: Seq<bool>,
    vc: Seq<bool>,
    roots: Seq<DataId>,
    anchor: int,
)
    requires
        justified(t, rd, va, vb, roots, anchor),
        justified(t, rd, vb, vc, roots, anchor),
        va.len() == t.vertices@.len(),
        vb.len() == t.vertices@.len(),
        vc.len() == t.vertices@.len(),
        forall|x: int| 0 <= x < t.vertices@.len() && va[x] ==> #[trigger] vb[x],
        forall|x: int| 0 <= x < t.vertices@.len() && vb[x] ==> #[trigger] vc[x],
    ensures
        justified(t, rd, va, vc, roots, anchor),
{
    let nv = t.vertices@.len();
    assert forall|x: int| 0 <= x < nv && #[trigger] newly(va, vc, x) implies exists|d: int|
        #[trigger] needed_by(t, rd, va, vc, roots, anchor, x, d) by {
        if vb[x] {
            assert(newly(va, vb, x));
            let d = choose|d: int| #[trigger] needed_by(t, rd, va, vb, roots, anchor, x, d);
            if !in_data(roots, d) && !(0 <= anchor < nv && feeds(t, d, anchor)) {
                let y = choose|y: int| 0 <= y < nv && newly(va, vb, y) && #[trigger] feeds(t, d, y);
                assert(vc[y]);
                assert(newly(va, vc, y));
            }
            assert(needed_by(t, rd, va, vc, roots, anchor, x, d));
        } else {
            assert(newly(vb, vc, x));
            let d = choose|d: int| #[trigger] needed_by(t, rd, vb, vc, roots, anchor, x, d);
            if !in_data(roots, d) && !(0 <= anchor < nv && feeds(t, d, anchor)) {
                let y = choose|y: int| 0 <= y < nv && newly(vb, vc, y) && #[trigger] feeds(t, d, y);
                assert(!va[y]);
                assert(newly(va, vc, y));
            }
            assert(needed_by(t, rd, va, vc, roots, anchor, x, d));
        }
    }
}

/// A walk justified by the single root `did`, an input of `anchor`, is
/// justified by `anchor`.
proof fn lemma_justified_anchor(
    t: FlowTemplate,
    rd: Seq<bool>,
    va: Seq<bool>,
    vb: Seq<bool>,
    did: DataId,
    anchor: int,
)
    requires
        justified(t, rd, va, vb, seq![did], -1),
        0 <= anchor < t.vertices@.len(),
        feeds(t, did.0 as int, anchor),
    ensures
        justified(t, rd, va, vb, Seq::<DataId>::empty(), anchor),
{
    let nv = t.vertices@.len();
    let roots = seq![did];
    assert forall|x: int| 0 <= x < nv && #[trigger] newly(va, vb, x) implies exists|d: int|
        #[trigger] needed_by(t, rd, va, vb, Seq::<DataId>::empty(), anchor, x, d) by {
        let d = choose|d: int| #[trigger] needed_by(t, rd, va, vb, roots, -1, x, d);
        if in_data(roots, d) {
            let j = choose|j: int| 0 <= j < roots.len() && (#[trigger] roots[j]).0 == d;
            assert(roots[j] == did);
        }
        assert(needed_by(t, rd, va, vb, Seq::<DataId>::empty(), anchor, x, d));
    }
}

/// A walk justified by the single root `targets[i]` is justified by all of
/// `targets`.
proof fn lemma_justified_widen(
    t: FlowTemplate,
    rd: Seq<bool>,
    va: Seq<bool>,
    vb: Seq<bool>,
    targets: Seq<DataId>,
    i: int,
)
    requires
        justified(t, rd, va, vb, seq![targets[i]], -1),
        0 <= i < targets.len(),
    ensures
        justified(t, rd, va, vb, targets, -1),
{
    let nv = t.vertices@.len();
    let roots = seq![targets[i]];
    assert forall|x: int| 0 <= x < nv && #[trigger] newly(va, vb, x) implies exists|d: int|
        #[trigger] needed_by(t, rd, va, vb, targets, -1, x, d) by {
        let d = choose|d: int| #[trigger] needed_by(t, rd, va, vb, roots, -1, x, d);
        if in_data(roots, d) {
            let j = choose|j: int| 0 <= j < roots.len() && (#[trigger] roots[j]).0 == d;
            assert(roots[j] == targets[i]);
            assert(targets[i].0 == d);
        }
        assert(needed_by(t, rd, va, vb, targets, -1, x, d));
    }
}

/// Marking `pid`, producer of the unpublished root `id`, and then a walk
/// justified by `pid` make a walk justified by `id`.
proof fn lemma_justified_close(
    t: FlowTemplate,
    rd: Seq<bool>,
    v0: Seq<bool>,
    vm: Seq<bool>,
    v2: Seq<bool>,
    id: DataId,
    pid: VertexId,
)
    requires
        justified(t, rd, vm, v2, Seq::<DataId>::empty(), pid.0 as int),
        pid.0 < t.vertices@.len(),
        v0.len() == t.vertices@.len(),
        v2.len() == t.vertices@.len(),
        !v0[pid.0 as int],
        vm == v0.update(pid.0 as int, true),
        forall|x: int| 0 <= x < t.vertices@.len() && vm[x] ==> #[trigger] v2[x],
        id.0 < t.datas@.len(),
        !rd[id.0 as int],
        t.datas@[id.0 as int].producer == Some(pid),
    ensures
        justified(t, rd, v0, v2, seq![id], -1),
{
    let nv = t.vertices@.len();
    let roots = seq![id];
    let p = pid.0 as int;
    assert(vm[p]);
    assert(newly(v0, v2, p));
    assert forall|x: int| 0 <= x < nv && #[trigger] newly(v0, v2, x) implies exists|d: int|
        #[trigger] needed_by(t, rd, v0, v2, roots, -1, x, d) by {
        if x == p {
            assert(roots[0] == id);
            assert(in_data(roots, id.0 as int));
            assert(VertexId(x as usize) == pid);
            assert(needed_by(t, rd, v0, v2, roots, -1, x, id.0 as int));
        } else {
            assert(vm[x] == v0[x]);
            assert(newly(vm, v2, x));
            let d = choose|d: int| #[trigger] needed_by(t, rd, vm, v2, Seq::<DataId>::empty(), p, x, d);
            if 0 <= p < nv && feeds(t, d, p) {
                assert(needed_by(t, rd, v0, v2, roots, -1, x, d));
            } else {
                assert(!in_data(Seq::<DataId>::empty(), d));
                let y = choose|y: int| 0 <= y < nv && newly(vm, v2, y) && #[trigger] feeds(t, d, y);
                assert(vm[y] == v0[y] || y == p);
                assert(newly(v0, v2, y));
                assert(needed_by(t, rd, v0, v2, roots, -1, x, d));
            }
        }
    }
}

} // verus!
