use vstd::prelude::*;

use crate::text::str_eq;

verus! {

/// A registered component: a shared instance, or a constructor that makes
/// a fresh instance per request.
pub enum ComponentEntry<S, F> {
    Singleton(S),
    Factory(F),
}

/// A registry of named components handed to every task.
///
/// `S` is the type of the stored singletons and `F` the type of the stored
/// factories; names are unique.
pub struct FlowContext<S, F> {
    components: Vec<(&'static str, ComponentEntry<S, F>)>,
    entries: Ghost<Map<Seq<char>, ComponentEntry<S, F>>>,
}

/// The registry built by inserting `entries` one after the other.
pub open spec fn entries_map<S, F>(entries: Seq<(&'static str, ComponentEntry<S, F>)>) -> Map<
    Seq<char>,
    ComponentEntry<S, F>,
>
    decreases entries.len(),
{
    if entries.len() == 0 {
        Map::empty()
    } else {
        entries_map(entries.drop_last()).insert(entries.last().0@, entries.last().1)
    }
}

/// The shared instance registered under `name`, if any.
pub open spec fn singleton_lookup<S, F>(m: Map<Seq<char>, ComponentEntry<S, F>>, name: Seq<char>) -> Option<S> {
    if m.contains_key(name) {
        match m[name] {
            ComponentEntry::Singleton(v) => Some(v),
            ComponentEntry::Factory(_) => None,
        }
    } else {
        None
    }
}

/// The constructor registered under `name`, if any.
pub open spec fn factory_lookup<S, F>(m: Map<Seq<char>, ComponentEntry<S, F>>, name: Seq<char>) -> Option<F> {
    if m.contains_key(name) {
        match m[name] {
            ComponentEntry::Singleton(_) => None,
            ComponentEntry::Factory(f) => Some(f),
        }
    } else {
        None
    }
}

/// The names of `entries`, in order.
pub open spec fn entry_names<S, F>(entries: Seq<(&'static str, ComponentEntry<S, F>)>) -> Seq<Seq<char>> {
    entries.map_values(|e: (&'static str, ComponentEntry<S, F>)| e.0@)
}

impl<S, F> View for FlowContext<S, F> {
    type V = Map<Seq<char>, ComponentEntry<S, F>>;

    closed spec fn view(&self) -> Map<Seq<char>, ComponentEntry<S, F>> {
        self.entries@
    }
}

impl<S, F> FlowContext<S, F> {
    /// Every stored name is unique and the model maps exactly the stored
    /// names to their entries.
    pub closed spec fn wf(&self) -> bool {
        let c = self.components@;
        &&& forall|i: int, j: int| 0 <= i < j < c.len() ==> c[i].0@ != c[j].0@
        &&& forall|i: int|
            0 <= i < c.len() ==> self.entries@.contains_key(#[trigger] c[i].0@) && self.entries@[c[i].0@]
                == c[i].1
        &&& forall|k: Seq<char>|
            #[trigger] self.entries@.contains_key(k) ==> exists|i: int| 0 <= i < c.len() && c[i].0@ == k
    }

    /// Creates an empty context.
    pub fn new() -> (ctx: Self)
        ensures
            ctx.wf(),
            ctx@ == Map::<Seq<char>, ComponentEntry<S, F>>::empty(),
    {
        FlowContext { components: Vec::new(), entries: Ghost(Map::empty()) }
    }

    /// The position of `name` among the stored components.
    fn find(&self, name: &str) -> (r: Option<usize>)
        requires
            self.wf(),
        ensures
            r is None <==> !self@.contains_key(name@),
            r matches Some(i) ==> i < self.components@.len() && self.components@[i as int].0@ == name@,
    {
        let mut i: usize = 0;
        while i < self.components.len()
            invariant
                self.wf(),
                i <= self.components@.len(),
                forall|j: int| 0 <= j < i ==> self.components@[j].0@ != name@,
            decreases self.components@.len() - i,
        {
            if str_eq(self.components[i].0, name) {
                return Some(i);
            }
            i = i + 1;
        }
        proof {
            if self@.contains_key(name@) {
                let j = choose|j: int| 0 <= j < self.components@.len() && self.components@[j].0@ == name@;
            }
        }
        None
    }

    /// Whether a component is registered under `name`.
    pub fn contains_component(&self, name: &str) -> (r: bool)
        requires
            self.wf(),
        ensures
            r == self@.contains_key(name@),
    {
        self.find(name).is_some()
    }

    fn insert_entry(&mut self, name: &'static str, entry: ComponentEntry<S, F>)
        requires
            old(self).wf(),
            !old(self)@.contains_key(name@),
        ensures
            final(self).wf(),
            final(self)@ == old(self)@.insert(name@, entry),
    {
        let ghost old_map = self.entries@;
        let ghost e = entry;
        self.components.push((name, entry));
        self.entries = Ghost(old_map.insert(name@, e));
        proof {
            let c = self.components@;
            assert forall|i: int| 0 <= i < c.len() implies self.entries@.contains_key(#[trigger] c[i].0@)
                && self.entries@[c[i].0@] == c[i].1 by {
                if i < c.len() - 1 {
                    assert(old(self).components@[i] == c[i]);
                    assert(c[i].0@ != name@);
                }
            }
            assert forall|k: Seq<char>| #[trigger] self.entries@.contains_key(k) implies exists|i: int|
                0 <= i < c.len() && c[i].0@ == k by {
                if k != name@ {
                    let i = choose|i: int| 0 <= i < old(self).components@.len() && old(self).components@[i].0@ == k;
                    assert(c[i] == old(self).components@[i]);
                } else {
                    assert(c[c.len() - 1].0@ == k);
                }
            }
            assert forall|i: int, j: int| 0 <= i < j < c.len() implies c[i].0@ != c[j].0@ by {
                if j == c.len() - 1 {
                    assert(old(self).components@[i] == c[i]);
                    assert(old(self)@.contains_key(c[i].0@));
                }
            }
        }
    }

    /// Registers a shared instance under `name`, which must be new.
    pub fn insert_singleton(&mut self, name: &'static str, value: S)
        requires
            old(self).wf(),
            !old(self)@.contains_key(name@),
        ensures
            final(self).wf(),
            final(self)@ == old(self)@.insert(name@, ComponentEntry::Singleton(value)),
    {
        self.insert_entry(name, ComponentEntry::Singleton(value));
    }

    /// Registers a constructor under `name`, which must be new.
    pub fn insert_factory(&mut self, name: &'static str, factory: F)
        requires
            old(self).wf(),
            !old(self)@.contains_key(name@),
        ensures
            final(self).wf(),
            final(self)@ == old(self)@.insert(name@, ComponentEntry::Factory(factory)),
    {
        self.insert_entry(name, ComponentEntry::Factory(factory));
    }

    /// The shared instance registered under `name`; `None` when the name is
    /// unknown or names a factory.
    pub fn get_singleton_component(&self, name: &str) -> (r: Option<&S>)
        requires
            self.wf(),
        ensures
            r is None <==> singleton_lookup(self@, name@) is None,
            r matches Some(v) ==> singleton_lookup(self@, name@) == Some(*v),
    {
        match self.find(name) {
            None => None,
            Some(i) => match &self.components[i].1 {
                ComponentEntry::Singleton(v) => Some(v),
                ComponentEntry::Factory(_) => None,
            },
        }
    }

    /// The constructor registered under `name`; `None` when the name is
    /// unknown or names a shared instance.
    pub fn get_factory_component(&self, name: &str) -> (r: Option<&F>)
        requires
            self.wf(),
        ensures
            r is None <==> factory_lookup(self@, name@) is None,
            r matches Some(f) ==> factory_lookup(self@, name@) == Some(*f),
    {
        match self.find(name) {
            None => None,
            Some(i) => match &self.components[i].1 {
                ComponentEntry::Singleton(_) => None,
                ComponentEntry::Factory(f) => Some(f),
            },
        }
    }

    /// Invokes the constructor registered under `name` and returns the
    /// fresh instance; `None` when the name is unknown or names a shared
    /// instance.
    pub fn create_component<R>(&self, name: &str) -> (r: Option<R>) where F: Fn() -> R
        requires
            self.wf(),
            factory_lookup(self@, name@) matches Some(f) ==> call_requires(f, ()),
        ensures
            r is None <==> factory_lookup(self@, name@) is None,
            r matches Some(v) ==> (factory_lookup(self@, name@) matches Some(f) && call_ensures(f, (), v)),
    {
        match self.get_factory_component(name) {
            None => None,
            Some(f) => Some(f()),
        }
    }
}

/// Builds the context from all registered components, in order. When two
/// registrations share a name, the name of the later one is returned.
pub fn init_components<S, F>(entries: Vec<(&'static str, ComponentEntry<S, F>)>) -> (r: Result<
    FlowContext<S, F>,
    &'static str,
>)
    ensures
        r is Ok <==> entry_names(entries@).no_duplicates(),
        r matches Ok(ctx) ==> ctx.wf() && ctx@ == entries_map(entries@),
        r matches Err(name) ==> exists|j: int|
            0 <= j < entries@.len() && entries@[j].0@ == name@ && entry_names(entries@).take(
                j,
            ).no_duplicates() && entry_names(entries@).take(j).contains(name@),
{
    let mut ctx = FlowContext::new();
    let mut rest = entries;
    let ghost all = rest@;
    let ghost names = entry_names(all);
    let mut consumed: usize = 0;
    let total = rest.len();
    assert(entry_names(all).take(0) =~= Seq::<Seq<char>>::empty());
    while rest.len() > 0
        invariant
            ctx.wf(),
            all == entries@,
            all.len() == total,
            consumed + rest@.len() == all.len(),
            rest@ == all.skip(consumed as int),
            names == entry_names(all),
            names.take(consumed as int).no_duplicates(),
            ctx@ == entries_map(all.take(consumed as int)),
            forall|k: Seq<char>| ctx@.contains_key(k) <==> names.take(consumed as int).contains(k),
        decreases rest@.len(),
    {
        let ghost before = rest@;
        let (name, entry) = rest.remove(0);
        proof {
            assert(all[consumed as int] == (name, entry)) by {
                assert(before[0] == all.skip(consumed as int)[0]);
            }
            assert(rest@ =~= all.skip(consumed + 1));
            assert(all.take(consumed + 1).drop_last() =~= all.take(consumed as int));
            assert(names.take(consumed + 1) =~= names.take(consumed as int).push(name@));
        }
        if ctx.contains_component(name) {
            proof {
                assert(names[consumed as int] == name@);
                let t = names.take(consumed as int);
                assert(t.contains(name@));
                let i = choose|i: int| 0 <= i < t.len() && t[i] == name@;
                assert(names[i] == names[consumed as int]);
                assert(!names.no_duplicates());
                assert(all[consumed as int].0@ == name@);
                assert(entry_names(entries@) == names);
            }
            return Err(name);
        }
        let ghost m0 = ctx@;
        ctx.insert_entry(name, entry);
        proof {
            let t = names.take(consumed as int);
            assert forall|k: Seq<char>| m0.contains_key(k) <==> t.contains(k) by {}
            assert forall|i: int, j: int| 0 <= i < j < t.push(name@).len() implies t.push(name@)[i] != t.push(name@)[j] by {
                if j == t.len() {
                    assert(t.contains(t[i]));
                }
            }
            assert forall|k: Seq<char>| ctx@.contains_key(k) <==> t.push(name@).contains(k) by {
                let tp = t.push(name@);
                if k == name@ {
                    assert(tp[t.len() as int] == k);
                } else {
                    assert(ctx@.contains_key(k) <==> m0.contains_key(k));
                    if tp.contains(k) {
                        let i = choose|i: int| 0 <= i < tp.len() && tp[i] == k;
                        assert(t[i] == k);
                    }
                    if t.contains(k) {
                        let i = choose|i: int| 0 <= i < t.len() && t[i] == k;
                        assert(tp[i] == k);
                    }
                }
            }
        }
        consumed = consumed + 1;
    }
    proof {
        assert(all.take(consumed as int) =~= all);
        assert(names.take(consumed as int) =~= names);
    }
    Ok(ctx)
}


/// A singleton reads back as inserted, is no factory, and leaves every
/// other name as it was.
pub proof fn law_singleton_read_after_insert<S, F>(
    m: Map<Seq<char>, ComponentEntry<S, F>>,
    name: Seq<char>,
    value: S,
    other: Seq<char>,
)
    ensures
        singleton_lookup(m.insert(name, ComponentEntry::Singleton(value)), name) == Some(value),
        factory_lookup(m.insert(name, ComponentEntry::Singleton(value)), name) is None,
        other != name ==> singleton_lookup(m.insert(name, ComponentEntry::Singleton(value)), other)
            == singleton_lookup(m, other) && factory_lookup(m.insert(name, ComponentEntry::Singleton(value)), other)
            == factory_lookup(m, other),
{
}

/// A factory reads back as inserted, is no singleton, and leaves every
/// other name as it was.
pub proof fn law_factory_read_after_insert<S, F>(
    m: Map<Seq<char>, ComponentEntry<S, F>>,
    name: Seq<char>,
    factory: F,
    other: Seq<char>,
)
    ensures
        factory_lookup(m.insert(name, ComponentEntry::Factory(factory)), name) == Some(factory),
        singleton_lookup(m.insert(name, ComponentEntry::Factory(factory)), name) is None,
        other != name ==> singleton_lookup(m.insert(name, ComponentEntry::Factory(factory)), other)
            == singleton_lookup(m, other) && factory_lookup(m.insert(name, ComponentEntry::Factory(factory)), other)
            == factory_lookup(m, other),
{
}

/// A context built from registrations with distinct names holds every
/// registration under its name, and no other name.
pub proof fn law_init_holds_each_registration<S, F>(entries: Seq<(&'static str, ComponentEntry<S, F>)>, i: int)
    requires
        entry_names(entries).no_duplicates(),
        0 <= i < entries.len(),
    ensures
        entries_map(entries).contains_key(entries[i].0@),
        entries_map(entries)[entries[i].0@] == entries[i].1,
        forall|k: Seq<char>| #[trigger] entries_map(entries).contains_key(k) ==> entry_names(entries).contains(k),
    decreases entries.len(),
{
    let n = entries.len();
    let names = entry_names(entries);
    let init = entries.drop_last();
    assert(entry_names(init) =~= names.drop_last());
    assert(entry_names(init).no_duplicates()) by {
        assert forall|a: int, b: int| 0 <= a < entry_names(init).len() && 0 <= b < entry_names(init).len() && a != b implies entry_names(init)[a]
            != entry_names(init)[b] by {
            assert(names[a] != names[b]);
        }
    }
    if i < n - 1 {
        law_init_holds_each_registration(init, i);
        assert(names[i] != names[n - 1]);
        assert(init[i] == entries[i]);
    } else if n > 1 {
        law_init_holds_each_registration(init, 0);
    }
    assert forall|k: Seq<char>| #[trigger] entries_map(entries).contains_key(k) implies names.contains(k) by {
        if k == entries.last().0@ {
            assert(names[n - 1] == k);
        } else {
            assert(entries_map(init).contains_key(k));
            if n > 1 {
                law_init_holds_each_registration(init, 0);
                assert(entry_names(init).contains(k));
                let j = choose|j: int| 0 <= j < entry_names(init).len() && entry_names(init)[j] == k;
                assert(names[j] == k);
            }
        }
    }
}

} // verus!
