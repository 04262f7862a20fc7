use vstd::prelude::*;
use std::marker::PhantomData;

use crate::data_driven_tf::error::FlowError;
use crate::data_driven_tf::types::{DataId, DepId, VertexId};

verus! {

/// Static description of a datum: its name, the vertex that produces it
/// and the dependencies that wait for it.
pub struct DataMeta {
    pub name: String,
    pub producer: Option<VertexId>,
    pub successors: Vec<DepId>,
}

impl DataMeta {
    pub fn new(name: &str) -> (m: Self)
        ensures
            m.name@ == name@,
            m.producer is None,
            m.successors@.len() == 0,
    {
        let owned = name.to_string();
        proof {
            broadcast use vstd::string::to_string_from_display_ensures_for_str;
        }
        DataMeta { name: owned, producer: None, successors: Vec::new() }
    }
}

/// A typed handle on a datum of a flow template.
pub struct DataHandle<T> {
    pub id: DataId,
    pub phantom: PhantomData<T>,
}

impl<T> DataHandle<T> {
    pub fn new(id: DataId) -> (h: Self)
        ensures
            h.id == id,
    {
        Self { id, phantom: PhantomData }
    }

    pub fn id(&self) -> (r: DataId)
        ensures
            r == self.id,
    {
        self.id
    }
}

/// A datum of one run of a flow: published at most once.
pub struct FlowData<T> {
    id: DataId,
    slot: Option<T>,
}

impl<T> FlowData<T> {
    /// The datum's id.
    pub closed spec fn data_id(&self) -> DataId {
        self.id
    }

    /// The published value, if any.
    pub closed spec fn value(&self) -> Option<T> {
        self.slot
    }

    pub fn new(id: DataId) -> (d: Self)
        ensures
            d.data_id() == id,
            d.value() is None,
    {
        Self { id, slot: None }
    }

    /// The published value; reading before publication is an error.
    pub fn get_published_data(&self) -> (r: Result<Option<&T>, FlowError>)
        ensures
            self.value() matches Some(v) ==> r == Ok::<Option<&T>, FlowError>(Some(&v)),
            self.value() is None ==> (r matches Err(FlowError::GetUnpublishedFlowData(i)) && i == self.data_id().0),
    {
        match &self.slot {
            Some(data) => Ok(Some(data)),
            None => Err(FlowError::GetUnpublishedFlowData(self.get_data_id())),
        }
    }

    /// Publishes `val`; a datum is published at most once.
    pub fn set_data(&mut self, val: T) -> (r: Result<(), FlowError>)
        ensures
            final(self).data_id() == old(self).data_id(),
            old(self).value() is None ==> r is Ok && final(self).value() == Some(val),
            old(self).value() is Some ==> (r matches Err(FlowError::AlreadyPublished) && final(self).value()
                == old(self).value()),
            final(self).value() == after_set(old(self).value(), val),
    {
        if self.slot.is_some() {
            Err(FlowError::AlreadyPublished)
        } else {
            self.slot = Some(val);
            Ok(())
        }
    }

    pub fn is_ready(&self) -> (r: bool)
        ensures
            r == self.value() is Some,
    {
        match &self.slot {
            Some(_) => true,
            None => false,
        }
    }

    pub fn get_data_id(&self) -> (r: usize)
        ensures
            r == self.data_id().0,
    {
        self.id.0
    }
}


/// The value of a datum after `set_data(val)`: the first value stays.
pub open spec fn after_set<T>(value: Option<T>, val: T) -> Option<T> {
    if value is Some {
        value
    } else {
        Some(val)
    }
}

/// The value after `set_data(vals[0])`, `set_data(vals[1])`, ...
pub open spec fn after_sets<T>(value: Option<T>, vals: Seq<T>) -> Option<T>
    decreases vals.len(),
{
    if vals.len() == 0 {
        value
    } else {
        after_sets(after_set(value, vals[0]), vals.skip(1))
    }
}

/// Once ready, a datum stays ready with its first value: after any calls of
/// `set_data`, it is ready exactly when it was or some call was made, and
/// its value is the one it had, else the first one set.
pub proof fn law_ready_stays_ready<T>(value: Option<T>, vals: Seq<T>)
    ensures
        after_sets(value, vals) is Some <==> (value is Some || vals.len() > 0),
        value is Some ==> after_sets(value, vals) == value,
        value is None && vals.len() > 0 ==> after_sets(value, vals) == Some(vals[0]),
    decreases vals.len(),
{
    if vals.len() > 0 {
        law_ready_stays_ready(after_set(value, vals[0]), vals.skip(1));
    }
}

} // verus!
