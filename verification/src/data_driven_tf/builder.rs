use vstd::prelude::*;

use crate::data_driven_tf::data::{DataHandle, DataMeta};
use crate::data_driven_tf::dependency::DepDef;
use crate::data_driven_tf::error::FlowError;
use crate::data_driven_tf::types::{DataId, DepId, VertexId};
use crate::data_driven_tf::vertex::VertexDef;
use crate::text::str_eq;

verus! {

/// Collects the data and vertices of a flow template.
pub struct FlowTemplateBuilder {
    pub datas: Vec<DataMeta>,
    pub vertices: Vec<VertexDef>,
    pub dependencies: Vec<DepDef>,
}

pub open spec fn data_names(datas: Seq<DataMeta>) -> Seq<Seq<char>> {
    datas.map_values(|m: DataMeta| m.name@)
}

impl FlowTemplateBuilder {
    pub fn new() -> (b: Self)
        ensures
            b.datas@.len() == 0,
            b.vertices@.len() == 0,
            b.dependencies@.len() == 0,
    {
        FlowTemplateBuilder { datas: Vec::new(), vertices: Vec::new(), dependencies: Vec::new() }
    }

    /// Whether a datum is named `name`.
    fn contains_data(&self, name: &str) -> (r: bool)
        ensures
            r == data_names(self.datas@).contains(name@),
    {
        let mut i: usize = 0;
        while i < self.datas.len()
            invariant
                i <= self.datas@.len(),
                forall|j: int| 0 <= j < i ==> data_names(self.datas@)[j] != name@,
            decreases self.datas@.len() - i,
        {
            if str_eq(self.datas[i].name.as_str(), name) {
                assert(data_names(self.datas@)[i as int] == name@);
                return true;
            }
            i = i + 1;
        }
        false
    }

    /// Adds a datum named `name`; names are unique. The datum's id is the
    /// number of data added before it.
    pub fn add_data<T>(&mut self, name: &str) -> (r: Result<DataHandle<T>, FlowError>)
        ensures
            data_names(old(self).datas@).contains(name@) ==> (r matches Err(FlowError::DuplicateData(n))
                && n@ == name@ && final(self).datas@ == old(self).datas@),
            !data_names(old(self).datas@).contains(name@) ==> (r matches Ok(h) && h.id.0 == old(self).datas@.len()
                && final(self).datas@.len() == old(self).datas@.len() + 1 && final(self).datas@.drop_last()
                == old(self).datas@ && final(self).datas@.last().name@ == name@
                && final(self).datas@.last().producer is None && final(self).datas@.last().successors@.len()
                == 0),
            final(self).vertices@ == old(self).vertices@,
            final(self).dependencies@ == old(self).dependencies@,
    {
        if self.contains_data(name) {
            let owned = name.to_string();
            proof {
                broadcast use vstd::string::to_string_from_display_ensures_for_str;
            }
            return Err(FlowError::DuplicateData(owned));
        }
        let id = DataId(self.datas.len());
        self.datas.push(DataMeta::new(name));
        assert(self.datas@.drop_last() =~= old(self).datas@);
        Ok(DataHandle::new(id))
    }

    /// Adds a vertex named `name` that waits for the data `deps` (as one
    /// dependency) and emits the data `emits`: the vertex becomes the
    /// producer of each datum it emits, and the new dependency becomes a
    /// successor of each datum it waits for, once per time it is listed.
    /// Ids naming no datum are left out of the data table.
    pub fn add_node(&mut self, name: &str, deps: Vec<DataId>, emits: Vec<DataId>)
        ensures
            final(self).dependencies@.len() == old(self).dependencies@.len() + 1,
            final(self).dependencies@.drop_last() == old(self).dependencies@,
            final(self).dependencies@.last().src.0 == old(self).vertices@.len(),
            final(self).dependencies@.last().targets@ == deps@,
            final(self).vertices@.len() == old(self).vertices@.len() + 1,
            final(self).vertices@.drop_last() == old(self).vertices@,
            final(self).vertices@.last().name@ == name@,
            final(self).vertices@.last().dependencies@ == seq![DepId(old(self).dependencies@.len() as usize)],
            final(self).vertices@.last().emits@ == emits@,
            final(self).datas@.len() == old(self).datas@.len(),
            forall|i: int|
                0 <= i < old(self).datas@.len() ==> {
                    &&& (#[trigger] final(self).datas@[i]).name == old(self).datas@[i].name
                    &&& final(self).datas@[i].producer == (if lists_index(emits@, i) {
                        Some(VertexId(old(self).vertices@.len() as usize))
                    } else {
                        old(self).datas@[i].producer
                    })
                    &&& final(self).datas@[i].successors@ == old(self).datas@[i].successors@ + Seq::new(
                        count_index(deps@, i),
                        |j: int| DepId(old(self).dependencies@.len() as usize),
                    )
                },
    {
        let vertex_id = self.vertices.len();
        let dep_id = self.dependencies.len();
        let n = self.datas.len();
        let mut j: usize = 0;
        while j < emits.len()
            invariant
                n == old(self).datas@.len(),
                self.datas@.len() == n,
                vertex_id == old(self).vertices@.len(),
                self.vertices@ == old(self).vertices@,
                self.dependencies@ == old(self).dependencies@,
                j <= emits@.len(),
                forall|i: int|
                    0 <= i < n ==> {
                        &&& (#[trigger] self.datas@[i]).name == old(self).datas@[i].name
                        &&& self.datas@[i].successors == old(self).datas@[i].successors
                        &&& self.datas@[i].producer == (if lists_index(emits@.take(j as int), i) {
                            Some(VertexId(vertex_id))
                        } else {
                            old(self).datas@[i].producer
                        })
                    },
            decreases emits@.len() - j,
        {
            let e = emits[j].0;
            proof {
                assert(emits@.take(j + 1) =~= emits@.take(j as int).push(emits@[j as int]));
                assert forall|i: int| lists_index(emits@.take(j + 1), i) == (lists_index(emits@.take(j as int), i) || i
                    == e) by {
                    lemma_lists_index_push(emits@.take(j as int), emits@[j as int], i);
                }
            }
            if e < n {
                let mut m = DataMeta { name: String::new(), producer: None, successors: Vec::new() };
                std::mem::swap(&mut m, &mut self.datas[e]);
                m.producer = Some(VertexId(vertex_id));
                self.datas.set(e, m);
            }
            j = j + 1;
        }
        proof {
            assert(emits@.take(emits@.len() as int) =~= emits@);
            assert(deps@.take(0) =~= Seq::<DataId>::empty());
            assert forall|i: int| 0 <= i < n implies self.datas@[i].successors@ == old(self).datas@[i].successors@
                + Seq::new(count_index(deps@.take(0), i), |q: int| DepId(dep_id)) by {
                assert(old(self).datas@[i].successors@ + Seq::new(0, |q: int| DepId(dep_id)) =~= old(
                    self,
                ).datas@[i].successors@);
            }
        }
        let mut j: usize = 0;
        while j < deps.len()
            invariant
                n == old(self).datas@.len(),
                self.datas@.len() == n,
                vertex_id == old(self).vertices@.len(),
                dep_id == old(self).dependencies@.len(),
                self.vertices@ == old(self).vertices@,
                self.dependencies@ == old(self).dependencies@,
                j <= deps@.len(),
                forall|i: int|
                    0 <= i < n ==> {
                        &&& (#[trigger] self.datas@[i]).name == old(self).datas@[i].name
                        &&& self.datas@[i].producer == (if lists_index(emits@, i) {
                            Some(VertexId(vertex_id))
                        } else {
                            old(self).datas@[i].producer
                        })
                        &&& self.datas@[i].successors@ == old(self).datas@[i].successors@ + Seq::new(
                            count_index(deps@.take(j as int), i),
                            |q: int| DepId(dep_id),
                        )
                    },
            decreases deps@.len() - j,
        {
            let d = deps[j].0;
            proof {
                assert(deps@.take(j + 1).drop_last() =~= deps@.take(j as int));
                assert(deps@.take(j + 1).last() == deps@[j as int]);
            }
            if d < n {
                let mut m = DataMeta { name: String::new(), producer: None, successors: Vec::new() };
                std::mem::swap(&mut m, &mut self.datas[d]);
                let ghost before = m.successors@;
                m.successors.push(DepId(dep_id));
                proof {
                    let c = count_index(deps@.take(j as int), d as int);
                    assert(Seq::new(c, |q: int| DepId(dep_id)).push(DepId(dep_id)) =~= Seq::new(
                        c + 1,
                        |q: int| DepId(dep_id),
                    ));
                    assert(m.successors@ =~= old(self).datas@[d as int].successors@ + Seq::new(
                        c + 1,
                        |q: int| DepId(dep_id),
                    ));
                }
                self.datas.set(d, m);
            }
            proof {
                assert forall|i: int|
                    0 <= i < n && i != d implies count_index(deps@.take(j + 1), i) == count_index(
                        deps@.take(j as int),
                        i,
                    ) by {}
            }
            j = j + 1;
        }
        proof {
            assert(emits@.take(emits@.len() as int) =~= emits@);
            assert(deps@.take(deps@.len() as int) =~= deps@);
        }
        self.dependencies.push(DepDef { src: VertexId(vertex_id), targets: deps });
        let mut dependencies = Vec::new();
        dependencies.push(DepId(dep_id));
        let owned = name.to_string();
        proof {
            broadcast use vstd::string::to_string_from_display_ensures_for_str;
        }
        self.vertices.push(VertexDef { name: owned, dependencies, emits });
        assert(self.dependencies@.drop_last() =~= old(self).dependencies@);
        assert(self.vertices@.drop_last() =~= old(self).vertices@);
        assert(self.vertices@.last().dependencies@ =~= seq![DepId(dep_id)]);
    }
}

/// `ids` holds an id equal to `i`.
pub open spec fn lists_index(ids: Seq<DataId>, i: int) -> bool {
    exists|j: int| 0 <= j < ids.len() && ids[j].0 == i
}

/// Number of the ids of `ids` equal to `i`.
pub open spec fn count_index(ids: Seq<DataId>, i: int) -> nat
    decreases ids.len(),
{
    if ids.len() == 0 {
        0
    } else {
        count_index(ids.drop_last(), i) + (if ids.last().0 == i { 1nat } else { 0nat })
    }
}

proof fn lemma_lists_index_push(ids: Seq<DataId>, d: DataId, i: int)
    ensures
        lists_index(ids.push(d), i) == (lists_index(ids, i) || d.0 == i),
{
    if lists_index(ids, i) {
        let j = choose|j: int| 0 <= j < ids.len() && ids[j].0 == i;
        assert(ids.push(d)[j] == ids[j]);
    }
    if d.0 == i {
        assert(ids.push(d)[ids.len() as int] == d);
    }
    if lists_index(ids.push(d), i) {
        let j = choose|j: int| 0 <= j < ids.push(d).len() && ids.push(d)[j].0 == i;
        if j < ids.len() {
            assert(ids.push(d)[j] == ids[j]);
        }
    }
}

} // verus!
