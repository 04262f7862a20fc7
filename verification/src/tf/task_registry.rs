use vstd::prelude::*;

use crate::text::str_eq;

verus! {

/// The names of the registered task constructors, in order.
pub open spec fn factory_names<C>(factories: Seq<(&'static str, C)>) -> Seq<Seq<char>> {
    factories.map_values(|f: (&'static str, C)| f.0@)
}

/// The first registered constructor is the one named `name`.
pub open spec fn first_named<C>(factories: Seq<(&'static str, C)>, name: Seq<char>, i: int) -> bool {
    &&& 0 <= i < factories.len()
    &&& factories[i].0@ == name
    &&& forall|j: int| 0 <= j < i ==> (#[trigger] factories[j]).0@ != name
}

/// Builds a task with the first constructor registered under `name`;
/// `None` when no constructor has that name.
pub fn create_invocable_task<C, T>(factories: &Vec<(&'static str, C)>, name: &str) -> (r: Option<T>) where
    C: Fn() -> T,

    requires
        forall|i: int| 0 <= i < factories@.len() ==> call_requires((#[trigger] factories@[i]).1, ()),
    ensures
        r is None <==> !factory_names(factories@).contains(name@),
        r matches Some(t) ==> exists|i: int|
            first_named(factories@, name@, i) && call_ensures(#[trigger] factories@[i].1, (), t),
{
    let mut i: usize = 0;
    while i < factories.len()
        invariant
            i <= factories@.len(),
            forall|j: int| 0 <= j < factories@.len() ==> call_requires((#[trigger] factories@[j]).1, ()),
            forall|j: int| 0 <= j < i ==> (#[trigger] factories@[j]).0@ != name@,
        decreases factories@.len() - i,
    {
        if str_eq(factories[i].0, name) {
            let t = (factories[i].1)();
            proof {
                assert(first_named(factories@, name@, i as int));
                assert(factory_names(factories@)[i as int] == name@);
            }
            return Some(t);
        }
        i = i + 1;
    }
    proof {
        if factory_names(factories@).contains(name@) {
            let j = choose|j: int| 0 <= j < factory_names(factories@).len() && factory_names(factories@)[j] == name@;
            assert(factories@[j].0@ == name@);
        }
    }
    None
}

} // verus!
