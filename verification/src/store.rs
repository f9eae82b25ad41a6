//! The configuration as a whole: every environment under its name.

use crate::assoc::{
    as_map, distinct_keys, keys_of, lemma_as_map_dom, lemma_position_of, lemma_put, position_of,
    put, Text,
};
use crate::environment::{Environment, EnvironmentView};
use crate::text::views;
use vstd::prelude::*;

verus! {

/// One name with the model of its environment.
pub type Record = (Seq<char>, EnvironmentView);

/// Every mapping of every environment in the list is free of repeated keys.
pub open spec fn records_wf(entries: Seq<Record>) -> bool {
    forall|i: int| 0 <= i < entries.len() ==> (#[trigger] entries[i]).1.wf()
}

/// Every environment of the configuration is well formed.
pub open spec fn store_wf(store: Map<Text, EnvironmentView>) -> bool {
    forall|name: Text| store.contains_key(name) ==> (#[trigger] store[name]).wf()
}

/// The mapping that a well-formed list of records stands for has finitely
/// many names, and each of its environments is well formed.
pub proof fn lemma_records_as_store(entries: Seq<Record>)
    requires
        records_wf(entries),
    ensures
        as_map(entries).dom().finite(),
        store_wf(as_map(entries)),
{
    lemma_as_map_dom(entries);
    assert forall|name: Text| as_map(entries).contains_key(name) implies (#[trigger] as_map(
        entries,
    )[name]).wf() by {
        lemma_position_of(entries, name);
    }
}

/// The environments of a configuration, each under a name of its own.
#[derive(Debug)]
pub struct ConfigStore {
    entries: Vec<(String, Environment)>,
}

impl View for ConfigStore {
    type V = Map<Text, EnvironmentView>;

    /// The mapping from each name to its environment.
    open spec fn view(&self) -> Map<Text, EnvironmentView> {
        as_map(self.entries())
    }
}

impl ConfigStore {
    /// The names with their environments, in the order in which the names
    /// came in.
    pub closed spec fn entries(&self) -> Seq<Record> {
        Seq::new(self.entries@.len(), |i: int| (self.entries@[i].0@, self.entries@[i].1@))
    }

    /// No name occurs twice, and no mapping of any environment holds a key
    /// twice. This holds of every `ConfigStore` at all times.
    #[verifier::type_invariant]
    pub open spec fn wf(&self) -> bool {
        &&& distinct_keys(self.entries())
        &&& records_wf(self.entries())
    }

    /// A configuration without environments.
    pub fn new() -> (out: ConfigStore)
        ensures
            out.entries() == Seq::<Record>::empty(),
            out@ == Map::<Text, EnvironmentView>::empty(),
    {
        let out = ConfigStore { entries: Vec::new() };
        assert(out.entries() =~= Seq::<Record>::empty());
        assert(out@ =~= Map::<Text, EnvironmentView>::empty());
        out
    }

    /// The number of environments.
    pub fn len(&self) -> (n: usize)
        ensures
            n == self.entries().len(),
            n == self@.dom().len(),
    {
        proof {
            use_type_invariant(self);
            lemma_as_map_dom(self.entries());
            let keys = keys_of(self.entries());
            assert(keys.no_duplicates());
            keys.unique_seq_to_set();
        }
        self.entries.len()
    }

    /// Whether the configuration has no environment.
    pub fn is_empty(&self) -> (b: bool)
        ensures
            b == (self.entries().len() == 0),
    {
        self.entries.len() == 0
    }

    fn find(&self, name: &String) -> (at: usize)
        ensures
            at == position_of(self.entries(), name@),
            at <= self.entries().len(),
    {
        let ghost all = self.entries();
        let mut i: usize = 0;
        assert(all.skip(0) =~= all);
        while i < self.entries.len()
            invariant
                i <= self.entries.len(),
                all == self.entries(),
                position_of(all, name@) == i + position_of(all.skip(i as int), name@),
            decreases self.entries.len() - i,
        {
            proof {
                assert(all.skip(i as int)[0] == all[i as int]);
                assert(all.skip(i as int).drop_first() =~= all.skip(i as int + 1));
            }
            if self.entries[i].0 == *name {
                return i;
            }
            i += 1;
        }
        proof {
            assert(all.skip(i as int).len() == 0);
        }
        i
    }

    /// Whether an environment has this name.
    pub fn contains_key(&self, name: &String) -> (b: bool)
        ensures
            b == self@.contains_key(name@),
    {
        proof {
            lemma_position_of(self.entries(), name@);
        }
        let at = self.find(name);
        at < self.entries.len()
    }

    /// The environment of this name, where there is one.
    pub fn get(&self, name: &String) -> (out: Option<&Environment>)
        ensures
            match out {
                Some(env) => self@.contains_key(name@) && env@ == self@[name@],
                None => !self@.contains_key(name@),
            },
    {
        proof {
            lemma_position_of(self.entries(), name@);
        }
        let at = self.find(name);
        if at < self.entries.len() {
            Some(&self.entries[at].1)
        } else {
            None
        }
    }

    /// Puts `env` under `name`. An environment that had the name is replaced
    /// and the name keeps its place; a new name goes to the end.
    pub fn insert(&mut self, name: String, env: Environment)
        ensures
            final(self).entries() == put(old(self).entries(), name@, env@),
            final(self)@ == old(self)@.insert(name@, env@),
    {
        proof {
            use_type_invariant(&*self);
            match &env.set {
                Some(m) => use_type_invariant(m),
                None => {},
            }
            match &env.append {
                Some(m) => use_type_invariant(m),
                None => {},
            }
            match &env.prepend {
                Some(m) => use_type_invariant(m),
                None => {},
            }
            lemma_position_of(self.entries(), name@);
            lemma_put(self.entries(), name@, env@);
        }
        let ghost before = self.entries();
        let at = self.find(&name);
        let mut entries: Vec<(String, Environment)> = Vec::new();
        std::mem::swap(&mut entries, &mut self.entries);
        if at < entries.len() {
            entries.set(at, (name, env));
        } else {
            entries.push((name, env));
        }
        let ghost after = Seq::new(entries@.len(), |i: int| (entries@[i].0@, entries@[i].1@));
        assert(after =~= put(before, name@, env@));
        self.entries = entries;
    }

    /// The names, in the order in which they came in.
    pub fn names(&self) -> (out: Vec<String>)
        ensures
            views(out@) == keys_of(self.entries()),
            views(out@).no_duplicates(),
            views(out@).to_set() == self@.dom(),
    {
        proof {
            use_type_invariant(self);
            lemma_as_map_dom(self.entries());
        }
        let mut out: Vec<String> = Vec::new();
        let mut i: usize = 0;
        while i < self.entries.len()
            invariant
                i <= self.entries.len(),
                out@.len() == i,
                forall|j: int| 0 <= j < i ==> (#[trigger] out@[j])@ == self.entries()[j].0,
            decreases self.entries.len() - i,
        {
            out.push(self.entries[i].0.clone());
            i += 1;
        }
        assert(views(out@) =~= keys_of(self.entries()));
        out
    }
}

} // verus!
