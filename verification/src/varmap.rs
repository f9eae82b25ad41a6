//! An insertion-ordered mapping from variable names to values.
//!
//! The entries are kept in a list in which no key occurs twice. Contracts
//! speak of the list of entries, taken by their character views, and of the
//! mathematical map that the list stands for.

use crate::assoc::{
    as_map, distinct_keys, has_key, lemma_position_of, lemma_put, lemma_put_all, position_of,
    put, put_all, Text,
};
use vstd::prelude::*;

verus! {

/// One variable with its value.
pub type Pair = (Seq<char>, Seq<char>);

/// An insertion-ordered mapping from names to values, without repeated keys.
#[derive(Debug)]
pub struct VarMap {
    entries: Vec<(String, String)>,
}

impl View for VarMap {
    type V = Map<Text, Text>;

    /// The mapping from each key to its value.
    open spec fn view(&self) -> Map<Text, Text> {
        as_map(self.entries())
    }
}

impl VarMap {
    /// The entries in insertion order, each as the characters of its key and
    /// of its value.
    pub closed spec fn entries(&self) -> Seq<Pair> {
        Seq::new(self.entries@.len(), |i: int| (self.entries@[i].0@, self.entries@[i].1@))
    }

    /// No key occurs twice. This holds of every `VarMap` at all times.
    #[verifier::type_invariant]
    pub open spec fn wf(&self) -> bool {
        distinct_keys(self.entries())
    }

    /// An empty mapping.
    pub fn new() -> (out: VarMap)
        ensures
            out.entries() == Seq::<Pair>::empty(),
    {
        let out = VarMap { entries: Vec::new() };
        assert(out.entries() =~= Seq::<Pair>::empty());
        out
    }

    /// The number of entries.
    pub fn len(&self) -> (n: usize)
        ensures
            n == self.entries().len(),
    {
        self.entries.len()
    }

    /// Whether the mapping has no entry.
    pub fn is_empty(&self) -> (b: bool)
        ensures
            b == (self.entries().len() == 0),
    {
        self.entries.len() == 0
    }

    /// The position of the entry with this key, where there is one.
    fn find(&self, key: &String) -> (at: usize)
        ensures
            at == position_of(self.entries(), key@),
            at <= self.entries().len(),
    {
        let ghost all = self.entries();
        let mut i: usize = 0;
        assert(all.skip(0) =~= all);
        while i < self.entries.len()
            invariant
                i <= self.entries.len(),
                all == self.entries(),
                position_of(all, key@) == i + position_of(all.skip(i as int), key@),
            decreases self.entries.len() - i,
        {
            proof {
                assert(all.skip(i as int)[0] == all[i as int]);
                assert(all.skip(i as int).drop_first() =~= all.skip(i as int + 1));
            }
            if self.entries[i].0 == *key {
                return i;
            }
            i += 1;
        }
        proof {
            assert(all.skip(i as int).len() == 0);
        }
        i
    }

    /// Whether some entry has this key.
    pub fn contains_key(&self, key: &String) -> (b: bool)
        ensures
            b == self@.contains_key(key@),
            b == has_key(self.entries(), key@),
    {
        proof {
            lemma_position_of(self.entries(), key@);
        }
        let at = self.find(key);
        at < self.entries.len()
    }

    /// The value that this key maps to, where it has one.
    pub fn get(&self, key: &String) -> (out: Option<&String>)
        ensures
            match out {
                Some(v) => self@.contains_key(key@) && v@ == self@[key@],
                None => !self@.contains_key(key@),
            },
    {
        proof {
            lemma_position_of(self.entries(), key@);
        }
        let at = self.find(key);
        if at < self.entries.len() {
            Some(&self.entries[at].1)
        } else {
            None
        }
    }

    /// Gives `key` the value `value`. A key that is there keeps its place; a
    /// new key goes to the end.
    pub fn insert(&mut self, key: String, value: String)
        ensures
            final(self).entries() == put(old(self).entries(), key@, value@),
            final(self)@ == old(self)@.insert(key@, value@),
    {
        proof {
            use_type_invariant(&*self);
            lemma_position_of(self.entries(), key@);
            lemma_put(self.entries(), key@, value@);
        }
        let ghost before = self.entries();
        let at = self.find(&key);
        let mut entries: Vec<(String, String)> = Vec::new();
        std::mem::swap(&mut entries, &mut self.entries);
        if at < entries.len() {
            entries.set(at, (key, value));
        } else {
            entries.push((key, value));
        }
        let ghost after = Seq::new(entries@.len(), |i: int| (entries@[i].0@, entries@[i].1@));
        assert(after =~= put(before, key@, value@));
        self.entries = entries;
    }

    /// The entries in insertion order.
    pub fn pairs(&self) -> (out: Vec<(String, String)>)
        ensures
            out@.len() == self.entries().len(),
            forall|i: int|
                0 <= i < out@.len() ==> (#[trigger] out@[i]).0@ == self.entries()[i].0 && out@[i].1@
                    == self.entries()[i].1,
    {
        let mut out: Vec<(String, String)> = Vec::new();
        let mut i: usize = 0;
        while i < self.entries.len()
            invariant
                i <= self.entries.len(),
                out@.len() == i,
                forall|j: int|
                    0 <= j < i ==> (#[trigger] out@[j]).0@ == self.entries()[j].0 && out@[j].1@
                        == self.entries()[j].1,
            decreases self.entries.len() - i,
        {
            out.push((self.entries[i].0.clone(), self.entries[i].1.clone()));
            i += 1;
        }
        out
    }

    /// This mapping with every entry of `later` put into it, first to last.
    pub fn merged_with(&self, later: &VarMap) -> (out: VarMap)
        ensures
            out.entries() == put_all(self.entries(), later.entries()),
            out@ == self@.union_prefer_right(later@),
    {
        proof {
            use_type_invariant(self);
            use_type_invariant(later);
            lemma_put_all(self.entries(), later.entries());
        }
        let mut out = self.clone();
        let mut i: usize = 0;
        while i < later.entries.len()
            invariant
                i <= later.entries.len(),
                out.entries() == put_all(self.entries(), later.entries().take(i as int)),
            decreases later.entries.len() - i,
        {
            proof {
                let upto = later.entries().take(i as int + 1);
                assert(upto.drop_last() =~= later.entries().take(i as int));
                assert(upto.last() == later.entries()[i as int]);
            }
            out.insert(later.entries[i].0.clone(), later.entries[i].1.clone());
            i += 1;
        }
        assert(later.entries().take(i as int) =~= later.entries());
        out
    }
}

impl Clone for VarMap {
    fn clone(&self) -> (out: VarMap)
        ensures
            out.entries() == self.entries(),
    {
        proof {
            use_type_invariant(self);
        }
        let mut entries: Vec<(String, String)> = Vec::new();
        let mut i: usize = 0;
        while i < self.entries.len()
            invariant
                i <= self.entries.len(),
                entries@.len() == i,
                forall|j: int|
                    0 <= j < i ==> (#[trigger] entries@[j]).0@ == self.entries@[j].0@
                        && entries@[j].1@ == self.entries@[j].1@,
            decreases self.entries.len() - i,
        {
            entries.push((self.entries[i].0.clone(), self.entries[i].1.clone()));
            i += 1;
        }
        let ghost copied = Seq::new(entries@.len(), |i: int| (entries@[i].0@, entries@[i].1@));
        assert(copied =~= self.entries());
        VarMap { entries }
    }
}

} // verus!
