use vstd::prelude::*;

use crate::tf::flow::TaskId;

verus! {

pub open spec fn ids_of(s: Seq<TaskId>) -> Seq<usize> {
    s.map_values(|t: TaskId| t.0)
}

/// Number of occurrences of `x` in `s`.
pub open spec fn count_of(s: Seq<usize>, x: usize) -> nat
    decreases s.len(),
{
    if s.len() == 0 {
        0
    } else {
        count_of(s.drop_last(), x) + (if s.last() == x { 1nat } else { 0nat })
    }
}

/// `s` is a nonempty set of tasks in which every task has an upstream
/// task that is also in `s`: the tasks of `s` can never all be started.
pub open spec fn cyclic_core(preds: Seq<Seq<usize>>, s: Set<usize>) -> bool {
    &&& exists|v: usize| s.contains(v)
    &&& forall|v: usize| #[trigger] s.contains(v) ==> {
        &&& v < preds.len()
        &&& exists|u: usize| s.contains(u) && #[trigger] preds[v as int].contains(u)
    }
}

/// The dependency graph has a cycle.
pub open spec fn has_cycle(preds: Seq<Seq<usize>>) -> bool {
    exists|s: Set<usize>| cyclic_core(preds, s)
}

pub open spec fn layer_ids(layers: Seq<Vec<TaskId>>) -> Seq<Seq<usize>> {
    layers.map_values(|l: Vec<TaskId>| ids_of(l@))
}

/// The index of the layer that holds `v`.
pub open spec fn layer_of(layers: Seq<Seq<usize>>, v: usize) -> int {
    choose|k: int| 0 <= k < layers.len() && #[trigger] layers[k].contains(v)
}

/// `layers` splits the tasks `0..preds.len()` into nonempty layers, each
/// task in exactly one, such that every upstream task of a task lies in an
/// earlier layer, and every task outside the first layer has an upstream
/// task in the layer just before its own.
pub open spec fn is_layering(preds: Seq<Seq<usize>>, layers: Seq<Seq<usize>>) -> bool {
    &&& forall|k: int| 0 <= k < layers.len() ==> #[trigger] layers[k].len() > 0
    &&& forall|k: int| 0 <= k < layers.len() ==> (#[trigger] layers[k]).no_duplicates()
    &&& forall|k: int, i: int|
        0 <= k < layers.len() && 0 <= i < layers[k].len() ==> #[trigger] layers[k][i] < preds.len()
    &&& forall|v: usize|
        v < preds.len() ==> 0 <= #[trigger] layer_of(layers, v) < layers.len() && layers[layer_of(
            layers,
            v,
        )].contains(v)
    &&& forall|k1: int, k2: int, v: usize|
        0 <= k1 < layers.len() && 0 <= k2 < layers.len() && #[trigger] layers[k1].contains(v)
            && #[trigger] layers[k2].contains(v) ==> k1 == k2
    &&& forall|v: usize, u: usize|
        v < preds.len() && #[trigger] preds[v as int].contains(u) ==> layer_of(layers, u) < layer_of(
            layers,
            v,
        )
    &&& forall|v: usize|
        v < preds.len() && #[trigger] layer_of(layers, v) > 0 ==> exists|u: usize|
            #[trigger] preds[v as int].contains(u) && layer_of(layers, u) == layer_of(layers, v) - 1
}

/// `x < y` on the pairs `(i1, j1)` and `(i2, j2)`, first components first.
pub open spec fn lex_lt(i1: int, j1: int, i2: int, j2: int) -> bool {
    i1 < i2 || (i1 == i2 && j1 < j2)
}

/// `q` lists distinct tasks in increasing order.
pub open spec fn ascending(q: Seq<usize>) -> bool {
    forall|a: int, b: int| 0 <= a < b < q.len() ==> #[trigger] q[a] < #[trigger] q[b]
}

/// When the tasks of `cur` finish one after the other, `v` becomes ready
/// at the `j`-th edge out of `cur[i]`: `cur[i]` is the last task of `cur`
/// upstream of `v`, and that edge is its last edge into `v`.
pub open spec fn release_point(
    preds: Seq<Seq<usize>>,
    succs: Seq<Seq<usize>>,
    cur: Seq<usize>,
    v: usize,
    i: int,
    j: int,
) -> bool {
    &&& 0 <= i < cur.len()
    &&& preds[v as int].contains(cur[i])
    &&& forall|i2: int| i < i2 < cur.len() ==> !preds[v as int].contains(#[trigger] cur[i2])
    &&& 0 <= j < succs[cur[i] as int].len()
    &&& succs[cur[i] as int][j] == v
    &&& forall|j2: int| j < j2 < succs[cur[i] as int].len() ==> #[trigger] succs[cur[i] as int][j2] != v
}

/// `v` becomes ready while the tasks of `cur` finish.
pub open spec fn released(preds: Seq<Seq<usize>>, succs: Seq<Seq<usize>>, cur: Seq<usize>, v: usize) -> bool {
    exists|i: int, j: int| #[trigger] release_point(preds, succs, cur, v, i, j)
}

/// `next` lists its tasks in the order in which they become ready while
/// the tasks of `cur` finish in order, each releasing its edges in order.
pub open spec fn ready_order(preds: Seq<Seq<usize>>, succs: Seq<Seq<usize>>, cur: Seq<usize>, next: Seq<usize>) -> bool {
    &&& forall|a: int| 0 <= a < next.len() ==> #[trigger] released(preds, succs, cur, next[a])
    &&& forall|a: int, b: int, i1: int, j1: int, i2: int, j2: int|
        #![trigger release_point(preds, succs, cur, next[a], i1, j1), release_point(preds, succs, cur, next[b], i2, j2)]
        0 <= a < b < next.len() && release_point(preds, succs, cur, next[a], i1, j1) && release_point(
            preds,
            succs,
            cur,
            next[b],
            i2,
            j2,
        ) ==> lex_lt(i1, j1, i2, j2)
}

/// Layer `m + 1` of `layers` is in ready order after layer `m`.
pub open spec fn step_ready(preds: Seq<Seq<usize>>, succs: Seq<Seq<usize>>, layers: Seq<Seq<usize>>, m: int) -> bool {
    ready_order(preds, succs, layers[m], layers[m + 1])
}

/// The order inside each layer: the first layer in increasing task order,
/// each later one in the order in which its tasks become ready while the
/// layer before it finishes in order (the order of a first-in first-out
/// queue of ready tasks).
pub open spec fn ready_layers(preds: Seq<Seq<usize>>, succs: Seq<Seq<usize>>, layers: Seq<Seq<usize>>) -> bool {
    &&& layers.len() > 0 ==> ascending(layers[0])
    &&& forall|m: int| 0 <= m < layers.len() - 1 ==> #[trigger] step_ready(preds, succs, layers, m)
}

/// `q` is listed by increasing release points `(qi[a], qj[a])`.
spec fn ordered_by(
    preds: Seq<Seq<usize>>,
    succs: Seq<Seq<usize>>,
    cur: Seq<usize>,
    q: Seq<usize>,
    qi: Seq<int>,
    qj: Seq<int>,
) -> bool {
    &&& qi.len() == q.len()
    &&& qj.len() == q.len()
    &&& forall|a: int| #![trigger q[a]] 0 <= a < q.len() ==> release_point(preds, succs, cur, q[a], qi[a], qj[a])
    &&& forall|a: int, b: int| 0 <= a < b < q.len() ==> lex_lt(#[trigger] qi[a], qj[a], #[trigger] qi[b], qj[b])
}

/// A task has one release point.
proof fn lemma_release_point_unique(
    preds: Seq<Seq<usize>>,
    succs: Seq<Seq<usize>>,
    cur: Seq<usize>,
    v: usize,
    i1: int,
    j1: int,
    i2: int,
    j2: int,
)
    requires
        release_point(preds, succs, cur, v, i1, j1),
        release_point(preds, succs, cur, v, i2, j2),
    ensures
        i1 == i2 && j1 == j2,
{
    if i1 < i2 {
        assert(!preds[v as int].contains(cur[i2]));
    } else if i2 < i1 {
        assert(!preds[v as int].contains(cur[i1]));
    } else if j1 < j2 {
        assert(succs[cur[i1] as int][j2] != v);
    } else if j2 < j1 {
        assert(succs[cur[i1] as int][j1] != v);
    }
}

proof fn lemma_ordered_ready(
    preds: Seq<Seq<usize>>,
    succs: Seq<Seq<usize>>,
    cur: Seq<usize>,
    q: Seq<usize>,
    qi: Seq<int>,
    qj: Seq<int>,
)
    requires
        ordered_by(preds, succs, cur, q, qi, qj),
    ensures
        ready_order(preds, succs, cur, q),
{
    assert forall|a: int| 0 <= a < q.len() implies #[trigger] released(preds, succs, cur, q[a]) by {
        assert(release_point(preds, succs, cur, q[a], qi[a], qj[a]));
    }
    assert forall|a: int, b: int, i1: int, j1: int, i2: int, j2: int|
        #![trigger release_point(preds, succs, cur, q[a], i1, j1), release_point(preds, succs, cur, q[b], i2, j2)]
        0 <= a < b < q.len() && release_point(preds, succs, cur, q[a], i1, j1) && release_point(
            preds,
            succs,
            cur,
            q[b],
            i2,
            j2,
        ) implies lex_lt(i1, j1, i2, j2) by {
        assert(release_point(preds, succs, cur, q[a], qi[a], qj[a]));
        assert(release_point(preds, succs, cur, q[b], qi[b], qj[b]));
        lemma_release_point_unique(preds, succs, cur, q[a], i1, j1, qi[a], qj[a]);
        lemma_release_point_unique(preds, succs, cur, q[b], i2, j2, qi[b], qj[b]);
        assert(lex_lt(qi[a], qj[a], qi[b], qj[b]));
    }
    assert(ready_order(preds, succs, cur, q));
}

proof fn lemma_ordered_push(
    preds: Seq<Seq<usize>>,
    succs: Seq<Seq<usize>>,
    cur: Seq<usize>,
    q: Seq<usize>,
    qi: Seq<int>,
    qj: Seq<int>,
    v: usize,
    i: int,
    j: int,
)
    requires
        ordered_by(preds, succs, cur, q, qi, qj),
        forall|a: int| 0 <= a < qi.len() ==> lex_lt(#[trigger] qi[a], qj[a], i, j),
        release_point(preds, succs, cur, v, i, j),
    ensures
        ordered_by(preds, succs, cur, q.push(v), qi.push(i), qj.push(j)),
{
    let q2 = q.push(v);
    let i2 = qi.push(i);
    let j2 = qj.push(j);
    assert forall|a: int| #![trigger q2[a]] 0 <= a < q2.len() implies release_point(preds, succs, cur, q2[a], i2[a], j2[a]) by {
        if a < q.len() {
            assert(q2[a] == q[a]);
            assert(release_point(preds, succs, cur, q[a], qi[a], qj[a]));
        }
    }
    assert forall|a: int, b: int| 0 <= a < b < q2.len() implies lex_lt(#[trigger] i2[a], j2[a], #[trigger] i2[b], j2[b]) by {
        assert(lex_lt(qi[a], qj[a], i, j));
        if b < q.len() {
            assert(lex_lt(qi[a], qj[a], qi[b], qj[b]));
        }
    }
}

proof fn lemma_ready_layers_push(preds: Seq<Seq<usize>>, succs: Seq<Seq<usize>>, lay: Seq<Seq<usize>>, cur: Seq<usize>)
    requires
        ready_layers(preds, succs, lay),
        lay.len() == 0 ==> ascending(cur),
        lay.len() > 0 ==> ready_order(preds, succs, lay.last(), cur),
    ensures
        ready_layers(preds, succs, lay.push(cur)),
{
    let l2 = lay.push(cur);
    if lay.len() == 0 {
        assert(l2[0] == cur);
    } else {
        assert(l2[0] == lay[0]);
    }
    assert forall|m: int| 0 <= m < l2.len() - 1 implies #[trigger] step_ready(preds, succs, l2, m) by {
        if m < lay.len() - 1 {
            assert(step_ready(preds, succs, lay, m));
            assert(l2[m] == lay[m] && l2[m + 1] == lay[m + 1]);
        } else {
            assert(l2[m] == lay.last() && l2[m + 1] == cur);
        }
    }
}

/// Counts over a prefix never decrease as the prefix grows.
proof fn lemma_count_of_take_mono(s: Seq<usize>, a: int, b: int, x: usize)
    requires
        0 <= a <= b <= s.len(),
    ensures
        count_of(s.take(a), x) <= count_of(s.take(b), x),
    decreases b - a,
{
    if a < b {
        lemma_count_of_take_mono(s, a, b - 1, x);
        lemma_count_of_take(s, b - 1, x);
    }
}

/// When a prefix already holds every occurrence of `x`, the rest holds none.
proof fn lemma_count_of_rest(s: Seq<usize>, m: int, x: usize)
    requires
        0 <= m <= s.len(),
        count_of(s.take(m), x) == count_of(s, x),
    ensures
        forall|j: int| m <= j < s.len() ==> #[trigger] s[j] != x,
{
    assert forall|j: int| m <= j < s.len() implies #[trigger] s[j] != x by {
        lemma_count_of_take_mono(s, m, j, x);
        lemma_count_of_take(s, j, x);
        if s[j] == x {
            assert(false);
        }
    }
}

/// The edge `succs[cur[ci]][j]` that brings the count of unfinished
/// upstream tasks of `v` to zero is the release point of `v`.
proof fn lemma_release_point_found(
    preds: Seq<Seq<usize>>,
    succs: Seq<Seq<usize>>,
    cur: Seq<usize>,
    ci: int,
    j: int,
    v: usize,
    done: Seq<bool>,
)
    requires
        graph_wf(succs, preds),
        0 <= ci < cur.len(),
        cur[ci] < preds.len(),
        v < preds.len(),
        0 <= j < succs[cur[ci] as int].len(),
        succs[cur[ci] as int][j] == v,
        count_of(succs[cur[ci] as int].take(j + 1), v) == count_of(succs[cur[ci] as int], v),
        done.len() == preds.len(),
        forall|i2: int| ci < i2 < cur.len() ==> cur[i2] < done.len() && !done[#[trigger] cur[i2] as int],
        forall|i: int| 0 <= i < preds[v as int].len() ==> done[#[trigger] preds[v as int][i] as int],
    ensures
        release_point(preds, succs, cur, v, ci, j),
{
    let t = cur[ci];
    lemma_count_of_index(succs[t as int], j);
    assert(count_of(succs[t as int], v) == count_of(preds[v as int], t));
    lemma_count_of_positive(preds[v as int], t);
    lemma_count_of_rest(succs[t as int], j + 1, v);
    assert forall|i2: int| ci < i2 < cur.len() implies !preds[v as int].contains(#[trigger] cur[i2]) by {
        if preds[v as int].contains(cur[i2]) {
            let k = choose|k: int| 0 <= k < preds[v as int].len() && preds[v as int][k] == cur[i2];
            assert(done[preds[v as int][k] as int]);
        }
    }
}

/// `c` copies of `x`.
pub open spec fn copies(x: usize, c: nat) -> Seq<usize> {
    Seq::new(c, |i: int| x)
}

/// The targets of the edges out of `u` from the tasks below `m`: task
/// after task in increasing order, each as often as it lists `u` upstream.
pub open spec fn edges_from(preds: Seq<Seq<usize>>, u: usize, m: nat) -> Seq<usize>
    decreases m,
{
    if m == 0 {
        Seq::empty()
    } else {
        edges_from(preds, u, (m - 1) as nat) + copies((m - 1) as usize, count_of(preds[m - 1], u))
    }
}

/// The successor lists of `preds` when its edges are added task after
/// task, each task's upstream tasks in order.
pub open spec fn succs_in_order(preds: Seq<Seq<usize>>) -> Seq<Seq<usize>> {
    Seq::new(preds.len(), |u: int| edges_from(preds, u as usize, preds.len()))
}

/// Number of entries `u` of `s` that are not yet marked in `done`.
spec fn pending(s: Seq<usize>, done: Seq<bool>) -> nat
    decreases s.len(),
{
    if s.len() == 0 {
        0
    } else {
        pending(s.drop_last(), done) + (if done[s.last() as int] { 0nat } else { 1nat })
    }
}

spec fn count_true(done: Seq<bool>) -> nat
    decreases done.len(),
{
    if done.len() == 0 {
        0
    } else {
        count_true(done.drop_last()) + (if done.last() { 1nat } else { 0nat })
    }
}

pub(crate) proof fn lemma_count_of_push(s: Seq<usize>, a: usize, x: usize)
    ensures
        count_of(s.push(a), x) == count_of(s, x) + (if a == x { 1nat } else { 0nat }),
{
    assert(s.push(a).drop_last() =~= s);
}

proof fn lemma_no_dup_push(s: Seq<usize>, x: usize)
    requires
        s.no_duplicates(),
        !s.contains(x),
    ensures
        s.push(x).no_duplicates(),
{
    assert forall|i: int, j: int|
        0 <= i < s.push(x).len() && 0 <= j < s.push(x).len() && i != j implies s.push(x)[i] != s.push(
            x,
        )[j] by {
        if i < s.len() && j == s.len() {
            assert(s.contains(s[i]));
        }
        if j < s.len() && i == s.len() {
            assert(s.contains(s[j]));
        }
    }
}

pub(crate) proof fn lemma_count_of_absent(s: Seq<usize>, x: usize)
    requires
        forall|i: int| 0 <= i < s.len() ==> s[i] != x,
    ensures
        count_of(s, x) == 0,
    decreases s.len(),
{
    if s.len() > 0 {
        lemma_count_of_absent(s.drop_last(), x);
    }
}

proof fn lemma_count_of_positive(s: Seq<usize>, x: usize)
    requires
        count_of(s, x) > 0,
    ensures
        s.contains(x),
    decreases s.len(),
{
    if s.last() != x {
        lemma_count_of_positive(s.drop_last(), x);
        let i = choose|i: int| 0 <= i < s.drop_last().len() && s.drop_last()[i] == x;
        assert(s[i] == x);
    } else {
        assert(s[s.len() - 1] == x);
    }
}

proof fn lemma_count_of_index(s: Seq<usize>, i: int)
    requires
        0 <= i < s.len(),
    ensures
        count_of(s, s[i]) > 0,
    decreases s.len(),
{
    if i < s.len() - 1 {
        lemma_count_of_index(s.drop_last(), i);
    }
}

pub(crate) proof fn lemma_count_of_take(s: Seq<usize>, j: int, x: usize)
    requires
        0 <= j < s.len(),
    ensures
        count_of(s.take(j + 1), x) == count_of(s.take(j), x) + (if s[j] == x { 1nat } else { 0nat }),
        count_of(s.take(j + 1), x) <= count_of(s, x),
    decreases s.len() - j,
{
    assert(s.take(j + 1).drop_last() =~= s.take(j));
    if j + 1 < s.len() {
        lemma_count_of_take(s, j + 1, x);
    } else {
        assert(s.take(j + 1) =~= s);
    }
}

/// Marking `t` as done removes exactly its occurrences from the pending count.
proof fn lemma_pending_mark(s: Seq<usize>, done: Seq<bool>, t: usize)
    requires
        0 <= t < done.len(),
        !done[t as int],
        forall|i: int| 0 <= i < s.len() ==> s[i] < done.len(),
    ensures
        pending(s, done) >= count_of(s, t),
        pending(s, done.update(t as int, true)) == pending(s, done) - count_of(s, t),
    decreases s.len(),
{
    if s.len() > 0 {
        lemma_pending_mark(s.drop_last(), done, t);
    }
}

proof fn lemma_pending_all_open(s: Seq<usize>, done: Seq<bool>)
    requires
        forall|i: int| 0 <= i < s.len() ==> !done[s[i] as int],
    ensures
        pending(s, done) == s.len(),
    decreases s.len(),
{
    if s.len() > 0 {
        lemma_pending_all_open(s.drop_last(), done);
    }
}

proof fn lemma_pending_zero(s: Seq<usize>, done: Seq<bool>)
    requires
        pending(s, done) == 0,
    ensures
        forall|i: int| 0 <= i < s.len() ==> done[s[i] as int],
    decreases s.len(),
{
    if s.len() > 0 {
        lemma_pending_zero(s.drop_last(), done);
        assert forall|i: int| 0 <= i < s.len() implies done[s[i] as int] by {
            if i < s.len() - 1 {
                assert(s.drop_last()[i] == s[i]);
            }
        }
    }
}

proof fn lemma_pending_positive(s: Seq<usize>, done: Seq<bool>) -> (i: int)
    requires
        pending(s, done) > 0,
    ensures
        0 <= i < s.len(),
        !done[s[i] as int],
    decreases s.len(),
{
    if done[s.last() as int] {
        let i = lemma_pending_positive(s.drop_last(), done);
        assert(s.drop_last()[i] == s[i]);
        i
    } else {
        s.len() - 1
    }
}

proof fn lemma_count_true_mark(done: Seq<bool>, t: int)
    requires
        0 <= t < done.len(),
        !done[t],
    ensures
        count_true(done.update(t, true)) == count_true(done) + 1,
    decreases done.len(),
{
    let d2 = done.update(t, true);
    if t < done.len() - 1 {
        assert(d2.drop_last() =~= done.drop_last().update(t, true));
        lemma_count_true_mark(done.drop_last(), t);
    } else {
        assert(d2.drop_last() =~= done.drop_last());
    }
}

proof fn lemma_count_true_bound(done: Seq<bool>)
    ensures
        count_true(done) <= done.len(),
        count_true(done) == done.len() ==> forall|i: int| 0 <= i < done.len() ==> done[i],
        (forall|i: int| 0 <= i < done.len() ==> done[i]) ==> count_true(done) == done.len(),
    decreases done.len(),
{
    if done.len() > 0 {
        lemma_count_true_bound(done.drop_last());
        if forall|i: int| 0 <= i < done.len() ==> done[i] {
            assert forall|i: int| 0 <= i < done.drop_last().len() implies done.drop_last()[i] by {
                assert(done[i]);
            }
        }
        if count_true(done) == done.len() {
            assert forall|i: int| 0 <= i < done.len() implies done[i] by {
                if i < done.len() - 1 {
                    assert(done.drop_last()[i] == done[i]);
                }
            }
        }
    }
}

proof fn lemma_count_true_none(n: nat)
    ensures
        count_true(Seq::new(n, |i: int| false)) == 0,
    decreases n,
{
    if n > 0 {
        assert(Seq::new(n, |i: int| false).drop_last() =~= Seq::new((n - 1) as nat, |i: int| false));
        lemma_count_true_none((n - 1) as nat);
    }
}

/// A layering leaves no room for a cycle: every task of a cyclic core would
/// need an upstream task of the core in a strictly earlier layer.
pub proof fn lemma_layering_acyclic(preds: Seq<Seq<usize>>, layers: Seq<Seq<usize>>)
    requires
        is_layering(preds, layers),
    ensures
        !has_cycle(preds),
{
    if has_cycle(preds) {
        let s = choose|s: Set<usize>| cyclic_core(preds, s);
        lemma_core_layers_unbounded(preds, layers, s, layers.len() as int);
        let v = choose|v: usize| s.contains(v);
        let k = layer_of(layers, v);
        assert(exists|k: int| 0 <= k < layers.len() && #[trigger] layers[k].contains(v));
        assert(0 <= k < layers.len() && layers[k].contains(v));
    }
}

#[verifier::spinoff_prover]
#[verifier::rlimit(30)]
proof fn lemma_core_layers_unbounded(
    preds: Seq<Seq<usize>>,
    layers: Seq<Seq<usize>>,
    s: Set<usize>,
    m: int,
)
    requires
        is_layering(preds, layers),
        cyclic_core(preds, s),
        m >= 0,
    ensures
        forall|v: usize| #[trigger] s.contains(v) ==> layer_of(layers, v) >= m,
    decreases m,
{
    if m > 0 {
        lemma_core_layers_unbounded(preds, layers, s, m - 1);
        assert forall|v: usize| #[trigger] s.contains(v) implies layer_of(layers, v) >= m by {
            let u = choose|u: usize| s.contains(u) && #[trigger] preds[v as int].contains(u);
            assert(layer_of(layers, u) >= m - 1);
        }
    } else {
        assert forall|v: usize| #[trigger] s.contains(v) implies layer_of(layers, v) >= m by {
            assert(v < preds.len());
            assert(exists|k: int| 0 <= k < layers.len() && #[trigger] layers[k].contains(v));
        }
    }
}

#[verifier::opaque]
spec fn tmp_matches(tmp: Seq<usize>, preds: Seq<Seq<usize>>, done: Seq<bool>) -> bool {
    &&& tmp.len() == preds.len()
    &&& forall|x: int| 0 <= x < preds.len() ==> #[trigger] tmp[x] as nat == pending(preds[x], done)
}

#[verifier::opaque]
spec fn queue_matches(q: Seq<usize>, lvl: Seq<int>, level: int) -> bool {
    &&& q.no_duplicates()
    &&& forall|i: int| 0 <= i < q.len() ==> #[trigger] q[i] < lvl.len()
    &&& forall|x: usize| x < lvl.len() ==> (lvl[x as int] == level <==> #[trigger] q.contains(x))
}

#[verifier::opaque]
spec fn layers_match(lay: Seq<Seq<usize>>, lvl: Seq<int>) -> bool {
    &&& forall|m: int| 0 <= m < lay.len() ==> #[trigger] lay[m].len() > 0
    &&& forall|m: int| 0 <= m < lay.len() ==> (#[trigger] lay[m]).no_duplicates()
    &&& forall|m: int, i: int| 0 <= m < lay.len() && 0 <= i < lay[m].len() ==> #[trigger] lay[m][i] < lvl.len()
    &&& forall|m: int, x: usize|
        0 <= m < lay.len() && x < lvl.len() ==> (#[trigger] lay[m].contains(x) <==> lvl[x as int] == m)
}

#[verifier::opaque]
spec fn levels_respect(preds: Seq<Seq<usize>>, lvl: Seq<int>) -> bool {
    &&& forall|x: int, j: int|
        0 <= x < preds.len() && 0 <= j < preds[x].len() && lvl[x] >= 0 ==> 0 <= lvl[
            #[trigger] preds[x][j] as int
        ] < lvl[x]
    &&& forall|x: int|
        0 <= x < preds.len() && #[trigger] lvl[x] > 0 ==> exists|j: int|
            0 <= j < preds[x].len() && lvl[#[trigger] preds[x][j] as int] == lvl[x] - 1
}

proof fn lemma_layers_push(lay: Seq<Seq<usize>>, lvl: Seq<int>, cur: Seq<usize>)
    requires
        layers_match(lay, lvl),
        queue_matches(cur, lvl, lay.len() as int),
        cur.len() > 0,
    ensures
        layers_match(lay.push(cur), lvl),
{
    reveal(layers_match);
    reveal(queue_matches);
    let l2 = lay.push(cur);
    assert forall|m: int, x: usize|
        0 <= m < l2.len() && x < lvl.len() implies (#[trigger] l2[m].contains(x) <==> lvl[x as int] == m) by {
        if m < lay.len() {
            assert(l2[m] == lay[m]);
        }
    }
    assert forall|m: int| 0 <= m < l2.len() implies (#[trigger] l2[m]).no_duplicates() by {
        if m < lay.len() {
            assert(l2[m] == lay[m]);
        }
    }
}

/// If every unfinished task still waits for an unfinished upstream task,
/// the unfinished tasks form a cyclic core.
proof fn lemma_stuck_gives_cycle(preds: Seq<Seq<usize>>, done: Seq<bool>, x0: usize)
    requires
        done.len() == preds.len(),
        x0 < preds.len(),
        !done[x0 as int],
        forall|v: int, i: int|
            0 <= v < preds.len() && 0 <= i < preds[v].len() ==> #[trigger] preds[v][i] < preds.len(),
        forall|v: int| 0 <= v < preds.len() && !done[v] ==> #[trigger] pending(preds[v], done) > 0,
    ensures
        has_cycle(preds),
{
    let s = Set::new(|x: usize| x < preds.len() && !done[x as int]);
    assert(s.contains(x0));
    assert forall|v: usize| #[trigger] s.contains(v) implies {
        &&& v < preds.len()
        &&& exists|u: usize| s.contains(u) && #[trigger] preds[v as int].contains(u)
    } by {
        assert(pending(preds[v as int], done) > 0);
        let i = lemma_pending_positive(preds[v as int], done);
        let u = preds[v as int][i];
        assert(u < preds.len());
        assert(s.contains(u));
        assert(preds[v as int].contains(u));
    }
    assert(cyclic_core(preds, s));
}

/// Levels that respect the dependencies and are grouped into the layers
/// make those layers a layering.
proof fn lemma_levels_give_layering(preds: Seq<Seq<usize>>, layers: Seq<Seq<usize>>, lvl: Seq<int>)
    requires
        lvl.len() == preds.len(),
        forall|v: int, i: int|
            0 <= v < preds.len() && 0 <= i < preds[v].len() ==> #[trigger] preds[v][i] < preds.len(),
        forall|x: int| 0 <= x < preds.len() ==> 0 <= #[trigger] lvl[x] < layers.len(),
        layers_match(layers, lvl),
        levels_respect(preds, lvl),
    ensures
        is_layering(preds, layers),
{
    reveal(layers_match);
    reveal(levels_respect);
    assert forall|v: usize| v < preds.len() implies #[trigger] layer_of(layers, v) == lvl[v as int] by {
        assert(layers[lvl[v as int]].contains(v));
        let k = layer_of(layers, v);
        assert(0 <= k < layers.len() && layers[k].contains(v));
    }
    assert forall|k1: int, k2: int, v: usize|
        0 <= k1 < layers.len() && 0 <= k2 < layers.len() && #[trigger] layers[k1].contains(v)
            && #[trigger] layers[k2].contains(v) implies k1 == k2 by {
        let i = choose|i: int| 0 <= i < layers[k1].len() && layers[k1][i] == v;
        assert(v < preds.len());
    }
    assert forall|v: usize, u: usize|
        v < preds.len() && #[trigger] preds[v as int].contains(u) implies layer_of(layers, u)
        < layer_of(layers, v) by {
        let j = choose|j: int| 0 <= j < preds[v as int].len() && preds[v as int][j] == u;
        assert(0 <= lvl[preds[v as int][j] as int] < lvl[v as int]);
        assert(u < preds.len());
    }
    assert forall|v: usize| v < preds.len() && #[trigger] layer_of(layers, v) > 0 implies exists|u: usize|
        #[trigger] preds[v as int].contains(u) && layer_of(layers, u) == layer_of(layers, v) - 1 by {
        let j = choose|j: int| 0 <= j < preds[v as int].len() && lvl[#[trigger] preds[v as int][j] as int] == lvl[v as int] - 1;
        let u = preds[v as int][j];
        assert(preds[v as int].contains(u));
        assert(u < preds.len());
        assert(layer_of(layers, u) == lvl[u as int]);
    }
}


pub open spec fn succ_ids(succs: Seq<Vec<TaskId>>) -> Seq<Seq<usize>> {
    succs.map_values(|es: Vec<TaskId>| ids_of(es@))
}

/// `succs` and `preds` describe the same graph on the nodes
/// `0..preds.len()`: every edge `u -> v` appears once in `succs[u]` for
/// every time it appears in `preds[v]`.
pub open spec fn graph_wf(succs: Seq<Seq<usize>>, preds: Seq<Seq<usize>>) -> bool {
    let n = preds.len();
    &&& succs.len() == n
    &&& forall|u: int, i: int| 0 <= u < n && 0 <= i < succs[u].len() ==> #[trigger] succs[u][i] < n
    &&& forall|v: int, i: int| 0 <= v < n && 0 <= i < preds[v].len() ==> #[trigger] preds[v][i] < n
    &&& forall|u: usize, v: usize|
        u < n && v < n ==> count_of(#[trigger] succs[u as int], v) == count_of(#[trigger] preds[v as int], u)
}

/// Marks task `t` as finished for the layering: every successor loses
/// one pending upstream per edge, and the successors that reach zero
/// join the next layer.
fn release_successors(
    succs: &Vec<Vec<TaskId>>,
    t: TaskId,
    tmp: &mut Vec<usize>,
    queue: &mut Vec<TaskId>,
    Ghost(preds): Ghost<Seq<Seq<usize>>>,
    Ghost(done0): Ghost<Seq<bool>>,
    Ghost(lvl0): Ghost<Seq<int>>,
    Ghost(k): Ghost<int>,
    Ghost(cur): Ghost<Seq<usize>>,
    Ghost(ci): Ghost<int>,
    Ghost(qi0): Ghost<Seq<int>>,
    Ghost(qj0): Ghost<Seq<int>>,
) -> (out: Ghost<(Seq<int>, Seq<int>, Seq<int>)>)
    requires
        graph_wf(succ_ids(succs@), preds),
        t.0 < preds.len(),
        done0.len() == preds.len(),
        !done0[t.0 as int],
        lvl0.len() == preds.len(),
        lvl0[t.0 as int] == k,
        k >= 0,
        tmp_matches(old(tmp)@, preds, done0),
        forall|x: int| 0 <= x < lvl0.len() && #[trigger] done0[x] ==> 0 <= lvl0[x] <= k,
        forall|x: int| 0 <= x < lvl0.len() ==> -1 <= #[trigger] lvl0[x] <= k + 1,
        forall|x: int| 0 <= x < lvl0.len() ==> (#[trigger] lvl0[x] == -1 <==> old(tmp)@[x] > 0),
        queue_matches(ids_of(old(queue)@), lvl0, k + 1),
        levels_respect(preds, lvl0),
        cur.no_duplicates(),
        0 <= ci < cur.len(),
        cur[ci] == t.0,
        forall|i2: int| ci <= i2 < cur.len() ==> cur[i2] < done0.len() && !done0[#[trigger] cur[i2] as int],
        ordered_by(preds, succ_ids(succs@), cur, ids_of(old(queue)@), qi0, qj0),
        forall|a: int| 0 <= a < qi0.len() ==> lex_lt(#[trigger] qi0[a], qj0[a], ci, 0),
    ensures
        tmp_matches(final(tmp)@, preds, done0.update(t.0 as int, true)),
        out@.0.len() == lvl0.len(),
        forall|x: int|
            0 <= x < lvl0.len() ==> #[trigger] out@.0[x] == lvl0[x] || (lvl0[x] == -1 && out@.0[x] == k + 1),
        forall|x: int| 0 <= x < lvl0.len() ==> (#[trigger] out@.0[x] == -1 <==> final(tmp)@[x] > 0),
        queue_matches(ids_of(final(queue)@), out@.0, k + 1),
        levels_respect(preds, out@.0),
        ordered_by(preds, succ_ids(succs@), cur, ids_of(final(queue)@), out@.1, out@.2),
        forall|a: int| 0 <= a < out@.1.len() ==> lex_lt(#[trigger] out@.1[a], out@.2[a], ci + 1, 0),
{
    let n_exec = succs.len();
    let ghost n = n_exec as nat;
    let ghost done = done0.update(t.0 as int, true);
    let ghost mut lvl = lvl0;
    let ghost mut qi = qi0;
    let ghost mut qj = qj0;
    proof {
        reveal(tmp_matches);
        assert forall|x: int| 0 <= x < n implies #[trigger] pending(preds[x], done0) == pending(
            preds[x],
            done,
        ) + count_of(preds[x], t.0) by {
            lemma_pending_mark(preds[x], done0, t.0);
        }
        assert(succ_ids(succs@)[t.0 as int].take(0) =~= Seq::<usize>::empty());
        assert forall|x: usize| x < n implies #[trigger] tmp@[x as int] as nat + count_of(succ_ids(succs@)[t.0 as int].take(0), x)
                    == pending(preds[x as int], done0) by {
        }
    }
    let succ_len = succs[t.0].len();
    let mut j: usize = 0;
    while j < succ_len
        invariant
            graph_wf(succ_ids(succs@), preds),
            n == preds.len(),
            n <= usize::MAX,
            
            t.0 < n,
            succ_len == succ_ids(succs@)[t.0 as int].len(),
            j <= succ_len,
            done == done0.update(t.0 as int, true),
            done0.len() == n,
            k >= 0,
            lvl0.len() == n,
            lvl0[t.0 as int] == k,
            lvl.len() == n,
            tmp@.len() == n,
            forall|x: int|
                0 <= x < n ==> #[trigger] pending(preds[x], done0) == pending(preds[x], done)
                    + count_of(preds[x], t.0),
            forall|x: usize|
                x < n ==> #[trigger] tmp@[x as int] as nat + count_of(succ_ids(succs@)[t.0 as int].take(j as int), x)
                    == pending(preds[x as int], done0),
            forall|x: int| 0 <= x < n && #[trigger] done0[x] ==> 0 <= lvl0[x] <= k,
            forall|x: int| 0 <= x < n ==> #[trigger] lvl[x] == lvl0[x] || (lvl0[x] == -1 && lvl[x] == k + 1),
            forall|x: int| 0 <= x < n ==> (#[trigger] lvl[x] == -1 <==> tmp@[x] > 0),
            queue_matches(ids_of(queue@), lvl, k + 1),
            levels_respect(preds, lvl),
            cur.no_duplicates(),
            0 <= ci < cur.len(),
            cur[ci] == t.0,
            forall|i2: int| ci <= i2 < cur.len() ==> cur[i2] < n && !done0[#[trigger] cur[i2] as int],
            ordered_by(preds, succ_ids(succs@), cur, ids_of(queue@), qi, qj),
            forall|a: int| 0 <= a < qi.len() ==> lex_lt(#[trigger] qi[a], qj[a], ci, j as int),
        decreases succ_len - j,
    {
        let succ = succs[t.0][j];
        let ghost s = succ.0;
        let ghost qi_b = qi;
        let ghost qj_b = qj;
        proof {
            assert(succ_ids(succs@)[t.0 as int][j as int] == s);
            assert(s < n);
            lemma_count_of_take(succ_ids(succs@)[t.0 as int], j as int, s);
            assert(count_of(succ_ids(succs@)[t.0 as int], s) == count_of(preds[s as int], t.0));
            assert(tmp@[s as int] >= 1);
            assert(lvl[s as int] == -1);
        }
        let ghost tmp_old = tmp@;
        let d = tmp[succ.0];
        tmp.set(succ.0, d - 1);
        proof {
            assert forall|x: usize| x < n implies #[trigger] tmp@[x as int] as nat + count_of(
                succ_ids(succs@)[t.0 as int].take(j + 1),
                x,
            ) == pending(preds[x as int], done0) by {
                lemma_count_of_take(succ_ids(succs@)[t.0 as int], j as int, x);
                if x == s {
                    assert(tmp@[x as int] == tmp_old[x as int] - 1);
                } else {
                    assert(tmp@[x as int] == tmp_old[x as int]);
                }
            }
        }
        if d == 1 {
            let ghost q0 = ids_of(queue@);
            proof {
                reveal(queue_matches);
                assert(lvl[s as int] == -1);
                if q0.contains(s) {
                    let i2 = choose|i2: int| 0 <= i2 < q0.len() && q0[i2] == s;
                    assert(queue@[i2].0 == s);
                }
                lemma_no_dup_push(q0, s);
            }
            queue.push(succ);
            proof {
                let sc = succ_ids(succs@);
                assert(ids_of(queue@) =~= q0.push(s));
                assert(tmp@[s as int] == 0);
                assert(tmp@[s as int] as nat + count_of(sc[t.0 as int].take(j + 1), s) == pending(preds[s as int], done0));
                assert(pending(preds[s as int], done0) == pending(preds[s as int], done) + count_of(preds[s as int], t.0));
                reveal(tmp_matches);
                lemma_pending_zero(preds[s as int], done);
                assert(count_of(sc[t.0 as int], s) == count_of(preds[s as int], t.0));
                assert forall|i2: int| ci < i2 < cur.len() implies cur[i2] < done.len() && !done[#[trigger] cur[i2] as int] by {
                    assert(cur[i2] != cur[ci]);
                    assert(!done0[cur[i2] as int]);
                }
                lemma_release_point_found(preds, sc, cur, ci, j as int, s, done);
                lemma_ordered_push(preds, sc, cur, q0, qi, qj, s, ci, j as int);
                qi = qi.push(ci);
                qj = qj.push(j as int);
            }
            proof {
                reveal(queue_matches);
                reveal(levels_respect);
                assert(ids_of(queue@) =~= q0.push(s));
                assert(pending(preds[s as int], done) == 0);
                lemma_pending_zero(preds[s as int], done);
                lemma_count_of_index(succ_ids(succs@)[t.0 as int], j as int);
                lemma_count_of_positive(preds[s as int], t.0);
                let jt = choose|jt: int| 0 <= jt < preds[s as int].len() && preds[s as int][jt] == t.0;
                let lvl1 = lvl;
                lvl = lvl.update(s as int, k + 1);
                assert forall|x: int, j2: int|
                    0 <= x < n && 0 <= j2 < preds[x].len() && lvl[x] >= 0 implies 0 <= lvl[
                        #[trigger] preds[x][j2] as int
                    ] < lvl[x] by {
                    if x == s {
                        assert(preds[x] == preds[s as int]);
                        let u = preds[x][j2];
                        assert(u < n);
                        assert(done[u as int]);
                        if u == t.0 {
                        } else {
                            assert(done0[u as int]);
                        }
                    } else {
                        assert(lvl1[x] >= 0);
                        assert(0 <= lvl1[preds[x][j2] as int] < lvl1[x]);
                    }
                }
                assert forall|x: int| 0 <= x < n && #[trigger] lvl[x] > 0 implies exists|j2: int|
                    0 <= j2 < preds[x].len() && lvl[#[trigger] preds[x][j2] as int] == lvl[x] - 1 by {
                    if x == s {
                        assert(preds[x] == preds[s as int]);
                        assert(preds[x][jt] == t.0);
                        assert(lvl[t.0 as int] == k);
                        assert(lvl[preds[x][jt] as int] == k);
                    } else {
                        let j2 = choose|j2: int|
                            0 <= j2 < preds[x].len() && lvl1[#[trigger] preds[x][j2] as int] == lvl1[x] - 1;
                        assert(lvl1[preds[x][j2] as int] >= 0);
                        assert(lvl[preds[x][j2] as int] == lvl[x] - 1);
                    }
                }
                assert forall|x: usize|
                    x < lvl.len() implies (lvl[x as int] == k + 1 <==> #[trigger] ids_of(queue@).contains(x)) by {
                    if q0.contains(x) {
                        let i2 = choose|i2: int| 0 <= i2 < q0.len() && q0[i2] == x;
                        assert(ids_of(queue@)[i2] == x);
                    }
                    if x == s {
                        assert(ids_of(queue@)[q0.len() as int] == x);
                    }
                }
                assert forall|i: int| 0 <= i < ids_of(queue@).len() implies #[trigger] ids_of(queue@)[i] < lvl.len() by {
                    if i < q0.len() {
                        assert(ids_of(queue@)[i] == q0[i]);
                    }
                }
            }
        }
        proof {
            assert forall|a: int| 0 <= a < qi.len() implies lex_lt(#[trigger] qi[a], qj[a], ci, j + 1) by {
                if a < qi_b.len() {
                    assert(qi[a] == qi_b[a] && qj[a] == qj_b[a]);
                    assert(lex_lt(qi_b[a], qj_b[a], ci, j as int));
                } else {
                    assert(qi[a] == ci && qj[a] == j);
                }
            }
        }
        j = j + 1;
    }
    proof {
        reveal(tmp_matches);
        assert(succ_ids(succs@)[t.0 as int].take(succ_len as int) =~= succ_ids(succs@)[t.0 as int]);
        assert forall|x: int| 0 <= x < n implies #[trigger] tmp@[x] as nat == pending(preds[x], done) by {
            let xu = x as usize;
            assert(xu as int == x);
            assert(count_of(succ_ids(succs@)[t.0 as int], xu) == count_of(preds[xu as int], t.0));
            assert(tmp@[xu as int] as nat + count_of(succ_ids(succs@)[t.0 as int].take(succ_len as int), xu)
                    == pending(preds[xu as int], done0));
        }
    }
    proof {
        assert forall|a: int| 0 <= a < qi.len() implies lex_lt(#[trigger] qi[a], qj[a], ci + 1, 0) by {
            assert(lex_lt(qi[a], qj[a], ci, succ_len as int));
        }
    }
    Ghost((lvl, qi, qj))
}

/// Orders the tasks into layers by repeatedly peeling off the tasks all
/// of whose upstream tasks were already placed (Kahn's algorithm).
/// Tasks of one layer do not depend on each other and may run
/// concurrently once all earlier layers have finished. The first layer
/// lists its tasks in increasing order, each later one in the order in
/// which its tasks become ready while the layer before it finishes.
pub fn kahn_layers(
    succs: &Vec<Vec<TaskId>>,
    indeg: &Vec<usize>,
    Ghost(preds): Ghost<Seq<Seq<usize>>>,
) -> (r: (Vec<Vec<TaskId>>, bool))
    requires
        graph_wf(succ_ids(succs@), preds),
        indeg@.len() == preds.len(),
        forall|v: int| 0 <= v < preds.len() ==> #[trigger] indeg@[v] == preds[v].len(),
    ensures
        r.1 <==> !has_cycle(preds),
        r.1 ==> is_layering(preds, layer_ids(r.0@)),
        r.1 ==> ready_layers(preds, succ_ids(succs@), layer_ids(r.0@)),
{
    let n = succs.len();
    let mut tmp: Vec<usize> = Vec::new();
    let mut queue: Vec<TaskId> = Vec::new();
    let ghost mut lvl: Seq<int> = Seq::empty();
    let mut v: usize = 0;
    while v < n
        invariant
            graph_wf(succ_ids(succs@), preds),
            n == preds.len(),
            v <= n,
            indeg@.len() == preds.len(),
            forall|x: int| 0 <= x < preds.len() ==> #[trigger] indeg@[x] == preds[x].len(),
            tmp@.len() == v,
            lvl.len() == v,
            forall|x: int| 0 <= x < v ==> #[trigger] tmp@[x] == preds[x].len(),
            forall|x: int| 0 <= x < v ==> (#[trigger] lvl[x] == 0 || lvl[x] == -1),
            forall|x: int| 0 <= x < v ==> (#[trigger] lvl[x] == 0 <==> tmp@[x] == 0),
            forall|x: usize| x < v ==> (lvl[x as int] == 0 <==> #[trigger] ids_of(queue@).contains(x)),
            ids_of(queue@).no_duplicates(),
            forall|i: int| 0 <= i < queue@.len() ==> #[trigger] queue@[i].0 < v,
            ascending(ids_of(queue@)),
        decreases n - v,
    {
        let d = indeg[v];
        let ghost q0 = ids_of(queue@);
        tmp.push(d);
        if d == 0 {
            proof {
                if q0.contains(v) {
                    let i = choose|i: int| 0 <= i < q0.len() && q0[i] == v;
                    assert(queue@[i].0 == v);
                }
                lemma_no_dup_push(q0, v);
            }
            queue.push(TaskId(v));
            proof {
                lvl = lvl.push(0);
                assert(ids_of(queue@) =~= q0.push(v));
                assert forall|a: int, b: int| 0 <= a < b < ids_of(queue@).len() implies #[trigger] ids_of(queue@)[a] < #[trigger] ids_of(queue@)[b] by {
                    assert(queue@[a].0 < v);
                    if b < q0.len() {
                        assert(q0[a] < q0[b]);
                    }
                }
            }
        } else {
            proof {
                lvl = lvl.push(-1);
            }
        }
        proof {
            assert forall|x: usize| x < v + 1 implies (lvl[x as int] == 0 <==> #[trigger] ids_of(
                queue@,
            ).contains(x)) by {
                if d == 0 {
                    assert(ids_of(queue@) =~= q0.push(v));
                    if x == v {
                        assert(ids_of(queue@)[q0.len() as int] == v);
                    } else if q0.contains(x) {
                        let i = choose|i: int| 0 <= i < q0.len() && q0[i] == x;
                        assert(ids_of(queue@)[i] == x);
                    }
                } else {
                    assert(ids_of(queue@) =~= q0);
                    if q0.contains(x) {
                        let i = choose|i: int| 0 <= i < q0.len() && q0[i] == x;
                        assert(queue@[i].0 == x);
                    }
                }
            }
        }
        v = v + 1;
    }
    let ghost mut done: Seq<bool> = Seq::new(n as nat, |i: int| false);
    proof {
        reveal(tmp_matches);
        reveal(queue_matches);
        reveal(layers_match);
        reveal(levels_respect);
        lemma_count_true_none(n as nat);
        assert forall|x: int| 0 <= x < n implies #[trigger] tmp@[x] as nat == pending(preds[x], done) by {
            lemma_pending_all_open(preds[x], done);
        }
        assert(layer_ids(Seq::<Vec<TaskId>>::empty()) =~= Seq::<Seq<usize>>::empty());
    }
    let mut layers: Vec<Vec<TaskId>> = Vec::new();
    let mut visited: usize = 0;
    while queue.len() > 0
        invariant
            graph_wf(succ_ids(succs@), preds),
            n == preds.len(),
            lvl.len() == n,
            done.len() == n,
            visited == count_true(done),
            tmp_matches(tmp@, preds, done),
            forall|x: int| 0 <= x < n ==> (#[trigger] done[x] <==> 0 <= lvl[x] < layers@.len()),
            forall|x: int| 0 <= x < n ==> -1 <= #[trigger] lvl[x] <= layers@.len(),
            forall|x: int| 0 <= x < n ==> (#[trigger] lvl[x] == -1 <==> tmp@[x] > 0),
            queue_matches(ids_of(queue@), lvl, layers@.len() as int),
            layers_match(layer_ids(layers@), lvl),
            levels_respect(preds, lvl),
            layers@.len() == 0 ==> ascending(ids_of(queue@)),
            layers@.len() > 0 ==> ready_order(preds, succ_ids(succs@), layer_ids(layers@).last(), ids_of(queue@)),
            ready_layers(preds, succ_ids(succs@), layer_ids(layers@)),
        decreases n - visited,
    {
        let ghost k = layers@.len() as int;
        let cur_layer = queue;
        queue = Vec::new();
        let ghost cur = ids_of(cur_layer@);
        let ghost visited0 = visited as int;
        let ghost mut qi: Seq<int> = Seq::empty();
        let ghost mut qj: Seq<int> = Seq::empty();
        proof {
            reveal(queue_matches);
            assert(ids_of(queue@) =~= Seq::<usize>::empty());
            lemma_count_true_bound(done);
        }
        let mut i: usize = 0;
        while i < cur_layer.len()
            invariant
                graph_wf(succ_ids(succs@), preds),
                n == preds.len(),
                    k == layers@.len(),
                cur == ids_of(cur_layer@),
                queue_matches(cur, lvl, k),
                cur.len() > 0,
                i <= cur.len(),
                lvl.len() == n,
                done.len() == n,
                visited == count_true(done),
                visited == visited0 + i,
                tmp_matches(tmp@, preds, done),
                forall|x: usize|
                    x < n ==> (#[trigger] done[x as int] <==> (0 <= lvl[x as int] < k || cur.take(
                        i as int,
                    ).contains(x))),
                forall|x: int| 0 <= x < n ==> -1 <= #[trigger] lvl[x] <= k + 1,
                forall|x: int| 0 <= x < n ==> (#[trigger] lvl[x] == -1 <==> tmp@[x] > 0),
                queue_matches(ids_of(queue@), lvl, k + 1),
                layers_match(layer_ids(layers@), lvl),
                levels_respect(preds, lvl),
                layers@.len() == 0 ==> ascending(cur),
                layers@.len() > 0 ==> ready_order(preds, succ_ids(succs@), layer_ids(layers@).last(), cur),
                ready_layers(preds, succ_ids(succs@), layer_ids(layers@)),
                ordered_by(preds, succ_ids(succs@), cur, ids_of(queue@), qi, qj),
                forall|a: int| 0 <= a < qi.len() ==> lex_lt(#[trigger] qi[a], qj[a], i as int, 0),
            decreases cur.len() - i,
        {
            let t = cur_layer[i];
            let ghost done0 = done;
            let ghost lvl0 = lvl;
            proof {
                reveal(queue_matches);
                assert(cur[i as int] == t.0);
                assert(cur.contains(t.0));
                assert(t.0 < n);
                assert(!cur.take(i as int).contains(t.0)) by {
                    if cur.take(i as int).contains(t.0) {
                        let i2 = choose|i2: int| 0 <= i2 < i && cur.take(i as int)[i2] == t.0;
                        assert(cur[i2] == cur[i as int]);
                    }
                }
                assert(lvl[t.0 as int] == k);
                assert(!done[t.0 as int]);
                assert forall|x: int| 0 <= x < n && #[trigger] done0[x] implies 0 <= lvl0[x] <= k by {
                    if !(0 <= lvl0[x] < k) {
                        assert(cur.take(i as int).contains(x as usize));
                        let i2 = choose|i2: int| 0 <= i2 < i && cur.take(i as int)[i2] == x as usize;
                        assert(cur[i2] == x);
                        assert(cur.contains(x as usize));
                    }
                }
                lemma_count_true_mark(done, t.0 as int);
                lemma_count_true_bound(done.update(t.0 as int, true));
            }
            proof {
                reveal(queue_matches);
                assert forall|i2: int| i <= i2 < cur.len() implies cur[i2] < done0.len() && !done0[#[trigger] cur[i2] as int] by {
                    assert(cur.contains(cur[i2]));
                    assert(lvl[cur[i2] as int] == k);
                    if cur.take(i as int).contains(cur[i2]) {
                        let i3 = choose|i3: int| 0 <= i3 < i && cur.take(i as int)[i3] == cur[i2];
                        assert(cur[i3] == cur[i2]);
                    }
                }
            }
            let lvl_out = release_successors(
                succs,
                t,
                &mut tmp,
                &mut queue,
                Ghost(preds),
                Ghost(done0),
                Ghost(lvl0),
                Ghost(k),
                Ghost(cur),
                Ghost(i as int),
                Ghost(qi),
                Ghost(qj),
            );
            proof {
                done = done0.update(t.0 as int, true);
                lvl = lvl_out@.0;
                qi = lvl_out@.1;
                qj = lvl_out@.2;
                reveal(queue_matches);
                reveal(layers_match);
                assert forall|x: usize| x < n implies (lvl[x as int] == k <==> #[trigger] cur.contains(x)) by {
                    assert(lvl0[x as int] == k <==> cur.contains(x));
                }
                assert forall|m: int, x: usize|
                    0 <= m < layer_ids(layers@).len() && x < lvl.len() implies (#[trigger] layer_ids(layers@)[m].contains(x) <==> lvl[x as int] == m) by {
                    assert(layer_ids(layers@)[m].contains(x) <==> lvl0[x as int] == m);
                }
                let tk = cur.take(i + 1);
                assert(tk =~= cur.take(i as int).push(t.0));
                assert forall|x: usize|
                    x < n implies (#[trigger] done[x as int] <==> (0 <= lvl[x as int] < k || tk.contains(x))) by {
                    if cur.take(i as int).contains(x) {
                        let i2 = choose|i2: int| 0 <= i2 < i && cur.take(i as int)[i2] == x;
                        assert(tk[i2] == x);
                    }
                    if tk.contains(x) {
                        let i2 = choose|i2: int| 0 <= i2 < tk.len() && tk[i2] == x;
                        if i2 < i {
                            assert(cur.take(i as int)[i2] == x);
                        }
                    }
                    if x == t.0 {
                        assert(tk[i as int] == x);
                    }
                }
            }
            visited = visited + 1;
            i = i + 1;
        }
        proof {
            assert(cur.take(cur.len() as int) =~= cur);
            reveal(queue_matches);
            lemma_ordered_ready(preds, succ_ids(succs@), cur, ids_of(queue@), qi, qj);
        }
        let ghost old_layers = layer_ids(layers@);
        layers.push(cur_layer);
        proof {
            assert(layer_ids(layers@) =~= old_layers.push(cur));
            lemma_ready_layers_push(preds, succ_ids(succs@), old_layers, cur);
            lemma_layers_push(old_layers, lvl, cur);
            lemma_count_true_bound(done);
        }
    }
    proof {
        lemma_count_true_bound(done);
    }
    if visited != n {
        proof {
            reveal(tmp_matches);
            reveal(queue_matches);
            let x0 = choose|x0: int| 0 <= x0 < n && !done[x0];
            assert forall|x: int| 0 <= x < n && !done[x] implies #[trigger] pending(preds[x], done) > 0 by {
                if lvl[x] == layers@.len() {
                    assert(ids_of(queue@).contains(x as usize));
                }
            }
            lemma_stuck_gives_cycle(preds, done, x0 as usize);
        }
        return (layers, false);
    }
    proof {
        let lay = layer_ids(layers@);
        assert forall|x: int| 0 <= x < n implies 0 <= #[trigger] lvl[x] < lay.len() by {
            assert(done[x]);
        }
        lemma_levels_give_layering(preds, lay, lvl);
        lemma_layering_acyclic(preds, lay);
    }
    (layers, true)
}

/// A graph on the nodes `0..n`, built edge by edge.
pub struct Dag {
    succs: Vec<Vec<TaskId>>,
    indeg: Vec<usize>,
    preds: Ghost<Seq<Seq<usize>>>,
}

impl Dag {
    /// `preds[v]` lists the sources of the edges into `v`, in insertion order.
    pub closed spec fn preds(&self) -> Seq<Seq<usize>> {
        self.preds@
    }

    /// `succ_lists()[u]` lists the targets of the edges out of `u`, in
    /// insertion order.
    pub closed spec fn succ_lists(&self) -> Seq<Seq<usize>> {
        succ_ids(self.succs@)
    }

    pub closed spec fn wf(&self) -> bool {
        &&& graph_wf(succ_ids(self.succs@), self.preds@)
        &&& self.indeg@.len() == self.preds@.len()
        &&& forall|v: int| 0 <= v < self.preds@.len() ==> #[trigger] self.indeg@[v] == self.preds@[v].len()
    }

    /// `n` nodes and no edges.
    pub fn new(n: usize) -> (g: Self)
        ensures
            g.wf(),
            g.preds() == Seq::new(n as nat, |i: int| Seq::<usize>::empty()),
            g.succ_lists() == Seq::new(n as nat, |i: int| Seq::<usize>::empty()),
    {
        let mut succs: Vec<Vec<TaskId>> = Vec::new();
        let mut indeg: Vec<usize> = Vec::new();
        let mut i: usize = 0;
        while i < n
            invariant
                i <= n,
                succs@.len() == i,
                indeg@.len() == i,
                forall|j: int| 0 <= j < i ==> (#[trigger] succs@[j])@.len() == 0,
                forall|j: int| 0 <= j < i ==> #[trigger] indeg@[j] == 0,
            decreases n - i,
        {
            succs.push(Vec::new());
            indeg.push(0);
            i = i + 1;
        }
        let g = Dag { succs, indeg, preds: Ghost(Seq::new(n as nat, |i: int| Seq::<usize>::empty())) };
        proof {
            assert forall|u: usize, v: usize| u < n && v < n implies count_of(
                #[trigger] succ_ids(g.succs@)[u as int],
                v,
            ) == count_of(#[trigger] g.preds@[v as int], u) by {
                assert(succ_ids(g.succs@)[u as int] =~= Seq::<usize>::empty());
            }
            assert forall|u: int| 0 <= u < n implies #[trigger] succ_ids(g.succs@)[u] == Seq::<usize>::empty() by {
                assert(succ_ids(g.succs@)[u] =~= Seq::<usize>::empty());
            }
            assert(succ_ids(g.succs@) =~= Seq::new(n as nat, |i: int| Seq::<usize>::empty()));
        }
        g
    }

    /// Adds the edge `from -> to`.
    pub fn add_edge(&mut self, from: usize, to: usize)
        requires
            old(self).wf(),
            from < old(self).preds().len(),
            to < old(self).preds().len(),
            old(self).preds()[to as int].len() < usize::MAX,
        ensures
            final(self).wf(),
            final(self).preds() == old(self).preds().update(to as int, old(self).preds()[to as int].push(from)),
            final(self).succ_lists() == old(self).succ_lists().update(
                from as int,
                old(self).succ_lists()[from as int].push(to),
            ),
            final(self).succ_lists().len() == old(self).succ_lists().len(),
    {
        let ghost old_succs = succ_ids(self.succs@);
        let ghost old_preds = self.preds@;
        let ghost n = old_preds.len();
        let mut out = Vec::new();
        std::mem::swap(&mut out, &mut self.succs[from]);
        out.push(TaskId(to));
        self.succs.set(from, out);
        let d = self.indeg[to];
        self.indeg.set(to, d + 1);
        self.preds = Ghost(old_preds.update(to as int, old_preds[to as int].push(from)));
        proof {
            assert(ids_of(self.succs@[from as int]@) =~= old_succs[from as int].push(to));
            assert(succ_ids(self.succs@) =~= old_succs.update(from as int, old_succs[from as int].push(to)));
            assert forall|u: usize, v: usize| u < n && v < n implies count_of(
                #[trigger] succ_ids(self.succs@)[u as int],
                v,
            ) == count_of(#[trigger] self.preds@[v as int], u) by {
                lemma_count_of_push(old_succs[from as int], to, v);
                lemma_count_of_push(old_preds[to as int], from, u);
            }
        }
    }

    /// See [`kahn_layers`]: the layers, and whether every node was placed.
    pub fn layers(&self) -> (r: (Vec<Vec<TaskId>>, bool))
        requires
            self.wf(),
        ensures
            r.1 <==> !has_cycle(self.preds()),
            r.1 ==> is_layering(self.preds(), layer_ids(r.0@)),
            r.1 ==> ready_layers(self.preds(), self.succ_lists(), layer_ids(r.0@)),
    {
        kahn_layers(&self.succs, &self.indeg, Ghost(self.preds@))
    }
}

/// The layers written one after the other.
pub open spec fn flatten(layers: Seq<Seq<usize>>) -> Seq<usize>
    decreases layers.len(),
{
    if layers.len() == 0 {
        Seq::empty()
    } else {
        flatten(layers.drop_last()) + layers.last()
    }
}

/// The node ids of `layers`, layer after layer.
pub fn flatten_layers(layers: &Vec<Vec<TaskId>>) -> (order: Vec<usize>)
    ensures
        order@ == flatten(layer_ids(layers@)),
{
    let mut order: Vec<usize> = Vec::new();
    let mut i: usize = 0;
    while i < layers.len()
        invariant
            i <= layers@.len(),
            order@ == flatten(layer_ids(layers@).take(i as int)),
        decreases layers@.len() - i,
    {
        let layer = &layers[i];
        let ghost before = order@;
        let mut j: usize = 0;
        while j < layer.len()
            invariant
                i < layers@.len(),
                *layer == layers@[i as int],
                j <= layer@.len(),
                order@ == before + ids_of(layer@).take(j as int),
            decreases layer@.len() - j,
        {
            order.push(layer[j].0);
            assert(ids_of(layer@).take(j + 1) =~= ids_of(layer@).take(j as int).push(layer@[j as int].0));
            assert(order@ =~= before + ids_of(layer@).take(j + 1));
            j = j + 1;
        }
        proof {
            let l = layer_ids(layers@);
            assert(ids_of(layer@).take(layer@.len() as int) =~= ids_of(layer@));
            assert(l.take(i + 1).drop_last() =~= l.take(i as int));
            assert(l.take(i + 1).last() == ids_of(layer@));
        }
        i = i + 1;
    }
    assert(layer_ids(layers@).take(layers@.len() as int) =~= layer_ids(layers@));
    order
}


/// `order` lists each task `0..preds.len()` exactly once, every task after
/// all of its upstream tasks.
pub open spec fn is_topological_order(preds: Seq<Seq<usize>>, order: Seq<usize>) -> bool {
    &&& order.no_duplicates()
    &&& forall|i: int| 0 <= i < order.len() ==> #[trigger] order[i] < preds.len()
    &&& forall|v: usize| v < preds.len() ==> #[trigger] order.contains(v)
    &&& forall|a: int, b: int|
        0 <= a < order.len() && 0 <= b < order.len() && #[trigger] preds[order[b] as int].contains(#[trigger] order[a])
            ==> a < b
}

proof fn lemma_flatten_member(layers: Seq<Seq<usize>>, a: int) -> (k: int)
    requires
        0 <= a < flatten(layers).len(),
    ensures
        0 <= k < layers.len(),
        layers[k].contains(flatten(layers)[a]),
    decreases layers.len(),
{
    let init = layers.drop_last();
    let f0 = flatten(init);
    if a < f0.len() {
        let k = lemma_flatten_member(init, a);
        assert(init[k] == layers[k]);
        k
    } else {
        let i = a - f0.len();
        assert(layers.last()[i] == flatten(layers)[a]);
        (layers.len() - 1) as int
    }
}

proof fn lemma_flatten_contains(layers: Seq<Seq<usize>>, k: int, x: usize)
    requires
        0 <= k < layers.len(),
        layers[k].contains(x),
    ensures
        flatten(layers).contains(x),
    decreases layers.len(),
{
    let init = layers.drop_last();
    let f0 = flatten(init);
    if k < layers.len() - 1 {
        assert(init[k] == layers[k]);
        lemma_flatten_contains(init, k, x);
        let a = choose|a: int| 0 <= a < f0.len() && f0[a] == x;
        assert(flatten(layers)[a] == x);
    } else {
        let i = choose|i: int| 0 <= i < layers.last().len() && layers.last()[i] == x;
        assert(flatten(layers)[f0.len() + i] == x);
    }
}

/// Of two positions of the flattened layers, the earlier one lies in a
/// layer no later than the later one's.
proof fn lemma_flatten_order(layers: Seq<Seq<usize>>, a: int, b: int) -> (r: (int, int))
    requires
        0 <= a < b < flatten(layers).len(),
    ensures
        0 <= r.0 <= r.1 < layers.len(),
        layers[r.0].contains(flatten(layers)[a]),
        layers[r.1].contains(flatten(layers)[b]),
        r.0 == r.1 ==> exists|i: int, j: int|
            0 <= i < j < layers[r.0].len() && layers[r.0][i] == flatten(layers)[a] && layers[r.0][j] == flatten(
                layers,
            )[b],
    decreases layers.len(),
{
    let n = layers.len();
    let init = layers.drop_last();
    let f0 = flatten(init);
    if b < f0.len() {
        let (ka, kb) = lemma_flatten_order(init, a, b);
        assert(init[ka] == layers[ka]);
        assert(init[kb] == layers[kb]);
        (ka, kb)
    } else if a >= f0.len() {
        assert(layers.last()[a - f0.len()] == flatten(layers)[a]);
        assert(layers.last()[b - f0.len()] == flatten(layers)[b]);
        assert(layers[n - 1] == layers.last());
        ((n - 1) as int, (n - 1) as int)
    } else {
        let ka = lemma_flatten_member(init, a);
        assert(init[ka] == layers[ka]);
        assert(layers.last()[b - f0.len()] == flatten(layers)[b]);
        (ka, (n - 1) as int)
    }
}

/// Running the layers one after the other runs every task exactly once,
/// and each task after all of its upstream tasks.
pub proof fn law_layers_give_topological_order(preds: Seq<Seq<usize>>, layers: Seq<Seq<usize>>)
    requires
        is_layering(preds, layers),
    ensures
        is_topological_order(preds, flatten(layers)),
{
    let f = flatten(layers);
    assert forall|i: int| 0 <= i < f.len() implies #[trigger] f[i] < preds.len() by {
        let k = lemma_flatten_member(layers, i);
        let j = choose|j: int| 0 <= j < layers[k].len() && layers[k][j] == f[i];
        assert(layers[k][j] < preds.len());
    }
    assert forall|v: usize| v < preds.len() implies #[trigger] f.contains(v) by {
        lemma_flatten_contains(layers, layer_of(layers, v), v);
    }
    assert forall|a: int, b: int| 0 <= a < f.len() && 0 <= b < f.len() && a != b implies f[a] != f[b] by {
        let (lo, hi) = if a < b { (a, b) } else { (b, a) };
        let (k1, k2) = lemma_flatten_order(layers, lo, hi);
        if f[lo] == f[hi] {
            assert(k1 == k2);
            let (i, j) = choose|i: int, j: int|
                0 <= i < j < layers[k1].len() && layers[k1][i] == f[lo] && layers[k1][j] == f[hi];
            assert(layers[k1].no_duplicates());
        }
    }
    assert forall|a: int, b: int|
        0 <= a < f.len() && 0 <= b < f.len() && #[trigger] preds[f[b] as int].contains(#[trigger] f[a]) implies a < b by {
        let u = f[a];
        let v = f[b];
        let kv = lemma_flatten_member(layers, b);
        assert(v < preds.len()) by {
            let j = choose|j: int| 0 <= j < layers[kv].len() && layers[kv][j] == v;
            assert(layers[kv][j] < preds.len());
        }
        assert(layer_of(layers, u) < layer_of(layers, v));
        if b <= a {
            if b == a {
            } else {
                let (k1, k2) = lemma_flatten_order(layers, b, a);
                assert(u < preds.len()) by {
                    let j = choose|j: int| 0 <= j < layers[k2].len() && layers[k2][j] == u;
                    assert(layers[k2][j] < preds.len());
                }
                assert(layers[layer_of(layers, v)].contains(v));
                assert(layers[layer_of(layers, u)].contains(u));
                assert(k1 == layer_of(layers, v));
                assert(k2 == layer_of(layers, u));
            }
        }
    }
}

/// Tasks of one layer never depend on one another, so a layer's tasks can
/// all run at the same time.
pub proof fn law_same_layer_independent(preds: Seq<Seq<usize>>, layers: Seq<Seq<usize>>, k: int, u: usize, v: usize)
    requires
        is_layering(preds, layers),
        0 <= k < layers.len(),
        layers[k].contains(u),
        layers[k].contains(v),
    ensures
        !preds[v as int].contains(u),
{
    let i = choose|i: int| 0 <= i < layers[k].len() && layers[k][i] == v;
    assert(layers[k][i] < preds.len());
    let j = choose|j: int| 0 <= j < layers[k].len() && layers[k][j] == u;
    assert(layers[k][j] < preds.len());
    assert(layers[layer_of(layers, v)].contains(v));
    assert(layers[layer_of(layers, u)].contains(u));
    assert(layer_of(layers, v) == k);
    assert(layer_of(layers, u) == k);
}

} // verus!
