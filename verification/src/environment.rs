//! One named entry of a configuration: what it sets, what it adds, and which
//! other entries it reuses.

use crate::assoc::{distinct_keys, Text};
use crate::text::{clone_strings, views};
use crate::varmap::{Pair, VarMap};
use vstd::prelude::*;

verus! {

/// The mathematical model of an [`Environment`]: every string as its
/// characters, every list as a sequence, every mapping as its entries in
/// insertion order.
pub struct EnvironmentView {
    pub display: Option<Text>,
    pub defer: Option<Seq<Text>>,
    pub set: Option<Seq<Pair>>,
    pub append: Option<Seq<Pair>>,
    pub prepend: Option<Seq<Pair>>,
    pub path: Option<Seq<Text>>,
    pub reuse: Option<Seq<Text>>,
    pub go: Option<Text>,
}

impl EnvironmentView {
    /// A mapping, where present, has no key twice.
    pub open spec fn wf(self) -> bool {
        &&& self.set matches Some(entries) ==> distinct_keys(entries)
        &&& self.append matches Some(entries) ==> distinct_keys(entries)
        &&& self.prepend matches Some(entries) ==> distinct_keys(entries)
    }

    /// The names that this environment reuses, in order; none where the field
    /// is absent.
    pub open spec fn reuses(self) -> Seq<Text> {
        match self.reuse {
            Some(names) => names,
            None => Seq::empty(),
        }
    }

    /// The model of an environment without any field.
    pub open spec fn blank() -> EnvironmentView {
        EnvironmentView {
            display: None,
            defer: None,
            set: None,
            append: None,
            prepend: None,
            path: None,
            reuse: None,
            go: None,
        }
    }
}

/// The characters of an optional string.
pub open spec fn text_of(field: Option<String>) -> Option<Text> {
    match field {
        Some(s) => Some(s@),
        None => None,
    }
}

/// The items of an optional list of strings.
pub open spec fn texts_of(field: Option<Vec<String>>) -> Option<Seq<Text>> {
    match field {
        Some(v) => Some(views(v@)),
        None => None,
    }
}

/// The entries of an optional mapping.
pub open spec fn entries_of(field: Option<VarMap>) -> Option<Seq<Pair>> {
    match field {
        Some(m) => Some(m.entries()),
        None => None,
    }
}

/// One configuration entry. Every field is optional.
#[derive(Debug)]
pub struct Environment {
    /// A label for people.
    pub display: Option<String>,
    /// Scripts to run, in order.
    pub defer: Option<Vec<String>>,
    /// Variables to set.
    pub set: Option<VarMap>,
    /// Values to append to variables.
    pub append: Option<VarMap>,
    /// Values to prepend to variables.
    pub prepend: Option<VarMap>,
    /// Entries for the search path, in order.
    pub path: Option<Vec<String>>,
    /// The names of the environments that this one builds on, in order.
    pub reuse: Option<Vec<String>>,
    /// A directory to change to.
    pub go: Option<String>,
}

impl View for Environment {
    type V = EnvironmentView;

    open spec fn view(&self) -> EnvironmentView {
        EnvironmentView {
            display: text_of(self.display),
            defer: texts_of(self.defer),
            set: entries_of(self.set),
            append: entries_of(self.append),
            prepend: entries_of(self.prepend),
            path: texts_of(self.path),
            reuse: texts_of(self.reuse),
            go: text_of(self.go),
        }
    }
}

/// The models of a list of environments.
pub open spec fn record_views(records: Seq<Environment>) -> Seq<EnvironmentView> {
    Seq::new(records.len(), |i: int| records[i]@)
}

/// Copies an optional string.
pub fn clone_text(field: &Option<String>) -> (out: Option<String>)
    ensures
        text_of(out) == text_of(*field),
{
    match field {
        Some(s) => Some(s.clone()),
        None => None,
    }
}

/// Copies an optional list of strings.
pub fn clone_texts(field: &Option<Vec<String>>) -> (out: Option<Vec<String>>)
    ensures
        texts_of(out) == texts_of(*field),
{
    match field {
        Some(v) => Some(clone_strings(v)),
        None => None,
    }
}

/// Copies an optional mapping.
pub fn clone_entries(field: &Option<VarMap>) -> (out: Option<VarMap>)
    ensures
        entries_of(out) == entries_of(*field),
{
    match field {
        Some(m) => Some(m.clone()),
        None => None,
    }
}

impl Environment {
    /// An environment without any field.
    pub fn new() -> (out: Environment)
        ensures
            out@ == EnvironmentView::blank(),
    {
        Environment {
            display: None,
            defer: None,
            set: None,
            append: None,
            prepend: None,
            path: None,
            reuse: None,
            go: None,
        }
    }
}

impl Clone for Environment {
    fn clone(&self) -> (out: Environment)
        ensures
            out@ == self@,
    {
        Environment {
            display: clone_text(&self.display),
            defer: clone_texts(&self.defer),
            set: clone_entries(&self.set),
            append: clone_entries(&self.append),
            prepend: clone_entries(&self.prepend),
            path: clone_texts(&self.path),
            reuse: clone_texts(&self.reuse),
            go: clone_text(&self.go),
        }
    }
}

impl Default for Environment {
    fn default() -> (out: Environment)
        ensures
            out@ == EnvironmentView::blank(),
    {
        Environment::new()
    }
}

} // verus!
