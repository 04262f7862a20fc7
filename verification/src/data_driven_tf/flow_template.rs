use vstd::prelude::*;

use crate::data_driven_tf::data::DataMeta;
use crate::data_driven_tf::dependency::DepDef;
use crate::data_driven_tf::types::VertexId;
use crate::data_driven_tf::vertex::VertexDef;

verus! {

/// The static definition of a data-driven flow.
pub struct FlowTemplate {
    pub name: String,
    pub vertices: Vec<VertexDef>,
    pub datas: Vec<DataMeta>,
    pub dependencies: Vec<DepDef>,
}

impl FlowTemplate {
    /// Every id names an entry of its table, and each dependency belongs to
    /// the vertex that lists it, which lists it once.
    pub open spec fn wf(&self) -> bool {
        let nv = self.vertices@.len();
        let nd = self.datas@.len();
        let np = self.dependencies@.len();
        &&& forall|v: int, k: int|
            0 <= v < nv && 0 <= k < self.vertices@[v].dependencies@.len() ==> {
                let dep = #[trigger] self.vertices@[v].dependencies@[k];
                &&& dep.0 < np
                &&& self.dependencies@[dep.0 as int].src.0 == v
            }
        &&& forall|v: int, k1: int, k2: int|
            0 <= v < nv && 0 <= k1 < self.vertices@[v].dependencies@.len() && 0 <= k2
                < self.vertices@[v].dependencies@.len() && k1 != k2 ==> #[trigger] self.vertices@[v].dependencies@[k1]
                != #[trigger] self.vertices@[v].dependencies@[k2]
        &&& forall|v: int, k: int|
            0 <= v < nv && 0 <= k < self.vertices@[v].emits@.len() ==> (#[trigger] self.vertices@[v].emits@[k]).0
                < nd
        &&& forall|p: int, k: int|
            0 <= p < np && 0 <= k < self.dependencies@[p].targets@.len() ==> (
            #[trigger] self.dependencies@[p].targets@[k]).0 < nd
        &&& forall|p: int| 0 <= p < np ==> (#[trigger] self.dependencies@[p]).src.0 < nv
        &&& forall|d: int|
            0 <= d < nd ==> ((#[trigger] self.datas@[d]).producer matches Some(v) ==> v.0 < nv)
        &&& forall|d: int, k: int|
            0 <= d < nd && 0 <= k < self.datas@[d].successors@.len() ==> (#[trigger] self.datas@[d].successors@[k]).0
                < np
    }

    fn check_vertex_deps(&self) -> (r: bool)
        ensures
            r == ((forall|v: int, k: int|
                0 <= v < self.vertices@.len() && 0 <= k < self.vertices@[v].dependencies@.len() ==> {
                    let dep = #[trigger] self.vertices@[v].dependencies@[k];
                    &&& dep.0 < self.dependencies@.len()
                    &&& self.dependencies@[dep.0 as int].src.0 == v
                }) && (forall|v: int, k1: int, k2: int|
                0 <= v < self.vertices@.len() && 0 <= k1 < self.vertices@[v].dependencies@.len() && 0 <= k2
                    < self.vertices@[v].dependencies@.len() && k1 != k2 ==> #[trigger] self.vertices@[v].dependencies@[k1]
                    != #[trigger] self.vertices@[v].dependencies@[k2])),
    {
        let mut v: usize = 0;
        while v < self.vertices.len()
            invariant
                v <= self.vertices@.len(),
                forall|w: int, k: int|
                    0 <= w < v && 0 <= k < self.vertices@[w].dependencies@.len() ==> {
                        let dep = #[trigger] self.vertices@[w].dependencies@[k];
                        &&& dep.0 < self.dependencies@.len()
                        &&& self.dependencies@[dep.0 as int].src.0 == w
                    },
                forall|w: int, k1: int, k2: int|
                    0 <= w < v && 0 <= k1 < self.vertices@[w].dependencies@.len() && 0 <= k2
                        < self.vertices@[w].dependencies@.len() && k1 != k2 ==> #[trigger] self.vertices@[w].dependencies@[k1]
                        != #[trigger] self.vertices@[w].dependencies@[k2],
            decreases self.vertices@.len() - v,
        {
            let deps = &self.vertices[v].dependencies;
            let mut k: usize = 0;
            while k < deps.len()
                invariant
                    v < self.vertices@.len(),
                    *deps == self.vertices@[v as int].dependencies,
                    k <= deps@.len(),
                    forall|j: int|
                        0 <= j < k ==> {
                            let dep = #[trigger] deps@[j];
                            &&& dep.0 < self.dependencies@.len()
                            &&& self.dependencies@[dep.0 as int].src.0 == v
                        },
                    forall|j1: int, j2: int| 0 <= j1 < k && 0 <= j2 < k && j1 != j2 ==> #[trigger] deps@[j1] != #[trigger] deps@[j2],
                decreases deps@.len() - k,
            {
                let dep = deps[k];
                if dep.0 >= self.dependencies.len() || self.dependencies[dep.0].src.0 != v {
                    assert(self.vertices@[v as int].dependencies@[k as int] == dep);
                    return false;
                }
                let mut j: usize = 0;
                while j < k
                    invariant
                        v < self.vertices@.len(),
                        *deps == self.vertices@[v as int].dependencies,
                        k < deps@.len(),
                        j <= k,
                        dep == deps@[k as int],
                        forall|i: int| 0 <= i < j ==> deps@[i] != dep,
                    decreases k - j,
                {
                    if deps[j].0 == dep.0 {
                        assert(deps@[j as int] == dep);
                        assert(self.vertices@[v as int].dependencies@[j as int] == self.vertices@[v as int].dependencies@[k as int]);
                        return false;
                    }
                    j = j + 1;
                }
                k = k + 1;
            }
            v = v + 1;
        }
        true
    }

    fn check_data_refs(&self) -> (r: bool)
        ensures
            r == ((forall|v: int, k: int|
                0 <= v < self.vertices@.len() && 0 <= k < self.vertices@[v].emits@.len() ==> (
                #[trigger] self.vertices@[v].emits@[k]).0 < self.datas@.len()) && (forall|p: int, k: int|
                0 <= p < self.dependencies@.len() && 0 <= k < self.dependencies@[p].targets@.len() ==> (
                #[trigger] self.dependencies@[p].targets@[k]).0 < self.datas@.len())),
    {
        let nd = self.datas.len();
        let mut v: usize = 0;
        while v < self.vertices.len()
            invariant
                nd == self.datas@.len(),
                v <= self.vertices@.len(),
                forall|w: int, k: int|
                    0 <= w < v && 0 <= k < self.vertices@[w].emits@.len() ==> (#[trigger] self.vertices@[w].emits@[k]).0 < nd,
            decreases self.vertices@.len() - v,
        {
            let emits = &self.vertices[v].emits;
            let mut k: usize = 0;
            while k < emits.len()
                invariant
                    nd == self.datas@.len(),
                    v < self.vertices@.len(),
                    *emits == self.vertices@[v as int].emits,
                    k <= emits@.len(),
                    forall|j: int| 0 <= j < k ==> (#[trigger] emits@[j]).0 < nd,
                decreases emits@.len() - k,
            {
                if emits[k].0 >= nd {
                    assert(self.vertices@[v as int].emits@[k as int] == emits@[k as int]);
                    return false;
                }
                k = k + 1;
            }
            v = v + 1;
        }
        let mut p: usize = 0;
        while p < self.dependencies.len()
            invariant
                nd == self.datas@.len(),
                p <= self.dependencies@.len(),
                forall|w: int, k: int|
                    0 <= w < self.vertices@.len() && 0 <= k < self.vertices@[w].emits@.len() ==> (
                    #[trigger] self.vertices@[w].emits@[k]).0 < nd,
                forall|q: int, k: int|
                    0 <= q < p && 0 <= k < self.dependencies@[q].targets@.len() ==> (
                    #[trigger] self.dependencies@[q].targets@[k]).0 < nd,
            decreases self.dependencies@.len() - p,
        {
            let targets = &self.dependencies[p].targets;
            let mut k: usize = 0;
            while k < targets.len()
                invariant
                    nd == self.datas@.len(),
                    p < self.dependencies@.len(),
                    *targets == self.dependencies@[p as int].targets,
                    k <= targets@.len(),
                    forall|j: int| 0 <= j < k ==> (#[trigger] targets@[j]).0 < nd,
                decreases targets@.len() - k,
            {
                if targets[k].0 >= nd {
                    assert(self.dependencies@[p as int].targets@[k as int] == targets@[k as int]);
                    return false;
                }
                k = k + 1;
            }
            p = p + 1;
        }
        true
    }

    fn check_links(&self) -> (r: bool)
        ensures
            r == ((forall|p: int| 0 <= p < self.dependencies@.len() ==> (#[trigger] self.dependencies@[p]).src.0
                < self.vertices@.len()) && (forall|d: int|
                0 <= d < self.datas@.len() ==> ((#[trigger] self.datas@[d]).producer matches Some(v) ==> v.0
                    < self.vertices@.len())) && (forall|d: int, k: int|
                0 <= d < self.datas@.len() && 0 <= k < self.datas@[d].successors@.len() ==> (
                #[trigger] self.datas@[d].successors@[k]).0 < self.dependencies@.len())),
    {
        let nv = self.vertices.len();
        let np = self.dependencies.len();
        let mut p: usize = 0;
        while p < np
            invariant
                nv == self.vertices@.len(),
                np == self.dependencies@.len(),
                p <= np,
                forall|q: int| 0 <= q < p ==> (#[trigger] self.dependencies@[q]).src.0 < nv,
            decreases np - p,
        {
            if self.dependencies[p].src.0 >= nv {
                return false;
            }
            p = p + 1;
        }
        let mut d: usize = 0;
        while d < self.datas.len()
            invariant
                nv == self.vertices@.len(),
                np == self.dependencies@.len(),
                d <= self.datas@.len(),
                forall|q: int| 0 <= q < np ==> (#[trigger] self.dependencies@[q]).src.0 < nv,
                forall|e: int| 0 <= e < d ==> ((#[trigger] self.datas@[e]).producer matches Some(v) ==> v.0 < nv),
                forall|e: int, k: int|
                    0 <= e < d && 0 <= k < self.datas@[e].successors@.len() ==> (
                    #[trigger] self.datas@[e].successors@[k]).0 < np,
            decreases self.datas@.len() - d,
        {
            if let Some(v) = self.datas[d].producer {
                if v.0 >= nv {
                    return false;
                }
            }
            let succ = &self.datas[d].successors;
            let mut k: usize = 0;
            while k < succ.len()
                invariant
                    np == self.dependencies@.len(),
                    d < self.datas@.len(),
                    *succ == self.datas@[d as int].successors,
                    k <= succ@.len(),
                    forall|j: int| 0 <= j < k ==> (#[trigger] succ@[j]).0 < np,
                decreases succ@.len() - k,
            {
                if succ[k].0 >= np {
                    assert(self.datas@[d as int].successors@[k as int] == succ@[k as int]);
                    return false;
                }
                k = k + 1;
            }
            d = d + 1;
        }
        true
    }

    /// Whether the template is well formed, as [`FlowTemplate::wf`] says.
    pub fn is_well_formed(&self) -> (r: bool)
        ensures
            r == self.wf(),
    {
        self.check_vertex_deps() && self.check_data_refs() && self.check_links()
    }

    pub fn vertex_name(&self, id: VertexId) -> (r: &str)
        requires
            id.0 < self.vertices@.len(),
        ensures
            r@ == self.vertices@[id.0 as int].name@,
    {
        self.vertices[id.0].name.as_str()
    }
}

} // verus!
