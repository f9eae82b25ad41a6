//! Folding environments into one.
//!
//! Environments are merged base first, the most specific last. A single
//! string is taken from the last environment that has one. Lists are joined
//! in order, and nothing is removed from them. Mappings are united key by key,
//! a later value replacing an earlier one.

use crate::assoc::{as_map, distinct_keys, lemma_put_all, put_all, Text};
use crate::environment::{
    clone_entries, clone_text, clone_texts, entries_of, record_views, text_of, texts_of,
    Environment, EnvironmentView,
};
use crate::resolver::{
    discovery, lemma_discovery, records_of, resolve, ResolveError, ResolveErrorView, Store,
};
use crate::store::{store_wf, ConfigStore};
use crate::text::views;
use crate::varmap::{Pair, VarMap};
use vstd::prelude::*;

verus! {

/// A single string: the later one where there is one, else the earlier.
pub open spec fn merge_text(base: Option<Text>, over: Option<Text>) -> Option<Text> {
    match over {
        Some(_) => over,
        None => base,
    }
}

/// A list: the earlier items, then the later ones.
pub open spec fn merge_list(base: Option<Seq<Text>>, over: Option<Seq<Text>>) -> Option<
    Seq<Text>,
> {
    match (base, over) {
        (Some(a), Some(b)) => Some(a + b),
        (Some(_), None) => base,
        (None, _) => over,
    }
}

/// A mapping: the earlier entries with every later entry put into them.
pub open spec fn merge_vars(base: Option<Seq<Pair>>, over: Option<Seq<Pair>>) -> Option<
    Seq<Pair>,
> {
    match (base, over) {
        (Some(a), Some(b)) => Some(put_all(a, b)),
        (Some(_), None) => base,
        (None, _) => over,
    }
}

/// The environment that `base` and the more specific `over` make together.
pub open spec fn merge_view(base: EnvironmentView, over: EnvironmentView) -> EnvironmentView {
    EnvironmentView {
        display: merge_text(base.display, over.display),
        defer: merge_list(base.defer, over.defer),
        set: merge_vars(base.set, over.set),
        append: merge_vars(base.append, over.append),
        prepend: merge_vars(base.prepend, over.prepend),
        path: merge_list(base.path, over.path),
        reuse: merge_list(base.reuse, over.reuse),
        go: merge_text(base.go, over.go),
    }
}

/// The environment that a sequence of environments makes, the first being
/// the base and each next one more specific than those before it.
pub open spec fn merge_all_view(records: Seq<EnvironmentView>) -> EnvironmentView
    decreases records.len(),
{
    if records.len() == 0 {
        EnvironmentView::blank()
    } else {
        merge_view(merge_all_view(records.drop_last()), records.last())
    }
}

fn merged_text(base: &Option<String>, over: &Option<String>) -> (out: Option<String>)
    ensures
        text_of(out) == merge_text(text_of(*base), text_of(*over)),
{
    match over {
        Some(_) => clone_text(over),
        None => clone_text(base),
    }
}

fn merged_list(base: &Option<Vec<String>>, over: &Option<Vec<String>>) -> (out: Option<
    Vec<String>,
>)
    ensures
        texts_of(out) == merge_list(texts_of(*base), texts_of(*over)),
{
    match (base, over) {
        (Some(a), Some(b)) => {
            let mut joined = crate::text::clone_strings(a);
            let mut i: usize = 0;
            while i < b.len()
                invariant
                    i <= b.len(),
                    views(joined@) == views(a@) + views(b@).take(i as int),
                decreases b.len() - i,
            {
                let ghost before = views(joined@);
                joined.push(b[i].clone());
                assert(views(joined@) =~= before.push(b[i as int]@));
                assert(views(b@).take(i as int + 1) =~= views(b@).take(i as int).push(
                    b[i as int]@,
                ));
                i += 1;
            }
            assert(views(b@).take(i as int) =~= views(b@));
            Some(joined)
        },
        (Some(_), None) => clone_texts(base),
        (None, _) => clone_texts(over),
    }
}

fn merged_vars(base: &Option<VarMap>, over: &Option<VarMap>) -> (out: Option<VarMap>)
    ensures
        entries_of(out) == merge_vars(entries_of(*base), entries_of(*over)),
{
    match (base, over) {
        (Some(a), Some(b)) => Some(a.merged_with(b)),
        (Some(_), None) => clone_entries(base),
        (None, _) => clone_entries(over),
    }
}

/// Merges two environments, `over` being the more specific.
pub fn merge(base: &Environment, over: &Environment) -> (out: Environment)
    ensures
        out@ == merge_view(base@, over@),
{
    Environment {
        display: merged_text(&base.display, &over.display),
        defer: merged_list(&base.defer, &over.defer),
        set: merged_vars(&base.set, &over.set),
        append: merged_vars(&base.append, &over.append),
        prepend: merged_vars(&base.prepend, &over.prepend),
        path: merged_list(&base.path, &over.path),
        reuse: merged_list(&base.reuse, &over.reuse),
        go: merged_text(&base.go, &over.go),
    }
}

/// Merging into an environment without fields gives the other one back.
pub proof fn lemma_merge_blank(over: EnvironmentView)
    ensures
        merge_view(EnvironmentView::blank(), over) == over,
{
}

/// Merges a sequence of environments, the base first and the most specific
/// last. The sequence holds at least one.
pub fn merge_all(records: &Vec<Environment>) -> (out: Environment)
    requires
        records.len() > 0,
    ensures
        out@ == merge_all_view(record_views(records@)),
{
    let ghost all = record_views(records@);
    let mut out = records[0].clone();
    proof {
        assert(all.take(1).drop_last() =~= Seq::<EnvironmentView>::empty());
        assert(all.take(1).last() == records[0]@);
        lemma_merge_blank(records[0]@);
        assert(merge_all_view(all.take(1).drop_last()) == EnvironmentView::blank());
    }
    let mut i: usize = 1;
    while i < records.len()
        invariant
            1 <= i <= records.len(),
            all == record_views(records@),
            out@ == merge_all_view(all.take(i as int)),
        decreases records.len() - i,
    {
        proof {
            assert(all.take(i as int + 1).drop_last() =~= all.take(i as int));
            assert(all.take(i as int + 1).last() == records[i as int]@);
        }
        out = merge(&out, &records[i]);
        i += 1;
    }
    assert(all.take(i as int) =~= all);
    out
}

/// The one environment that `root` stands for: what it brings in, merged in
/// the order of application; or why there is none.
pub open spec fn effective(store: Store, root: Text) -> Result<EnvironmentView, ResolveErrorView> {
    match discovery(store, root) {
        Ok(names) => Ok(merge_all_view(records_of(store, names.reverse()))),
        Err(e) => Err(e),
    }
}

/// What a merged resolution gave, in the model.
pub open spec fn effective_view(out: Result<Environment, ResolveError>) -> Result<
    EnvironmentView,
    ResolveErrorView,
> {
    match out {
        Ok(env) => Ok(env@),
        Err(e) => Err(e@),
    }
}

/// Two merged resolutions of one name against one configuration agree: in
/// the environment they give, or in how they fail.
pub proof fn lemma_effective_repeats(
    store: Store,
    root: Text,
    first: Result<Environment, ResolveError>,
    second: Result<Environment, ResolveError>,
)
    requires
        effective_view(first) == effective(store, root),
        effective_view(second) == effective(store, root),
    ensures
        effective_view(first) == effective_view(second),
        first is Ok <==> second is Ok,
{
}

/// The effective environment of `env_name`: every environment that it brings
/// in, merged base first, `env_name` itself last.
///
/// Fails as [`resolve`] does, and then merges nothing.
pub fn effective_environment(env_name: String, envs: &ConfigStore) -> (out: Result<
    Environment,
    ResolveError,
>)
    ensures
        effective_view(out) == effective(envs@, env_name@),
{
    proof {
        use_type_invariant(envs);
        crate::store::lemma_records_as_store(envs.entries());
        lemma_discovery(envs@, env_name@);
    }
    match resolve(env_name, envs) {
        Ok(records) => Ok(merge_all(&records)),
        Err(e) => Err(e),
    }
}

/// The items of a list field; none where the field is absent.
pub open spec fn items(field: Option<Seq<Text>>) -> Seq<Text> {
    match field {
        Some(list) => list,
        None => Seq::empty(),
    }
}

/// The mapping of a mapping field; empty where the field is absent.
pub open spec fn vars(field: Option<Seq<Pair>>) -> Map<Text, Text> {
    match field {
        Some(entries) => as_map(entries),
        None => Map::empty(),
    }
}

/// Every environment of the sequence is well formed.
pub open spec fn all_wf(records: Seq<EnvironmentView>) -> bool {
    forall|i: int| 0 <= i < records.len() ==> (#[trigger] records[i]).wf()
}

/// A sequence of one environment merges to that environment.
pub proof fn lemma_merge_one(only: EnvironmentView)
    ensures
        merge_all_view(seq![only]) == only,
{
    let records = seq![only];
    assert(records.drop_last() =~= Seq::<EnvironmentView>::empty());
    assert(merge_all_view(records.drop_last()) == EnvironmentView::blank());
    assert(records.last() == only);
}

/// Merging joins lists and unites mappings, and keeps mappings free of
/// repeated keys.
pub proof fn lemma_merge_fields(base: EnvironmentView, over: EnvironmentView)
    requires
        base.wf(),
        over.wf(),
    ensures
        merge_view(base, over).wf(),
        items(merge_view(base, over).defer) == items(base.defer) + items(over.defer),
        items(merge_view(base, over).path) == items(base.path) + items(over.path),
        items(merge_view(base, over).reuse) == items(base.reuse) + items(over.reuse),
        vars(merge_view(base, over).set) == vars(base.set).union_prefer_right(vars(over.set)),
        vars(merge_view(base, over).append) == vars(base.append).union_prefer_right(
            vars(over.append),
        ),
        vars(merge_view(base, over).prepend) == vars(base.prepend).union_prefer_right(
            vars(over.prepend),
        ),
{
    lemma_merge_vars(base.set, over.set);
    lemma_merge_vars(base.append, over.append);
    lemma_merge_vars(base.prepend, over.prepend);
    lemma_merge_list(base.defer, over.defer);
    lemma_merge_list(base.path, over.path);
    lemma_merge_list(base.reuse, over.reuse);
}

/// Merging two list fields joins their items.
pub proof fn lemma_merge_list(base: Option<Seq<Text>>, over: Option<Seq<Text>>)
    ensures
        items(merge_list(base, over)) == items(base) + items(over),
{
    assert(items(merge_list(base, over)) =~= items(base) + items(over));
}

/// Merging two mapping fields unites their mappings, the later value winning.
pub proof fn lemma_merge_vars(base: Option<Seq<Pair>>, over: Option<Seq<Pair>>)
    requires
        base matches Some(entries) ==> distinct_keys(entries),
        over matches Some(entries) ==> distinct_keys(entries),
    ensures
        merge_vars(base, over) matches Some(entries) ==> distinct_keys(entries),
        vars(merge_vars(base, over)) == vars(base).union_prefer_right(vars(over)),
{
    match (base, over) {
        (Some(a), Some(b)) => {
            lemma_put_all(a, b);
        },
        _ => {},
    }
    assert(vars(merge_vars(base, over)) =~= vars(base).union_prefer_right(vars(over)));
}

/// Merging well-formed environments gives a well-formed environment.
pub proof fn lemma_merge_all_wf(records: Seq<EnvironmentView>)
    requires
        all_wf(records),
    ensures
        merge_all_view(records).wf(),
    decreases records.len(),
{
    if records.len() > 0 {
        let front = records.drop_last();
        assert forall|i: int| 0 <= i < front.len() implies (#[trigger] front[i]).wf() by {
            assert(front[i] == records[i]);
        }
        lemma_merge_all_wf(front);
        lemma_merge_fields(merge_all_view(front), records.last());
    }
}

/// The last environment of a sequence wins: its display and its directory
/// stand in the merged environment, and so does the value of each variable
/// that it sets, appends or prepends.
pub proof fn lemma_last_wins(records: Seq<EnvironmentView>)
    requires
        records.len() > 0,
        all_wf(records),
    ensures
        records.last().display is Some ==> merge_all_view(records).display
            == records.last().display,
        records.last().go is Some ==> merge_all_view(records).go == records.last().go,
        forall|k: Text| #[trigger]
            vars(records.last().set).contains_key(k) ==> vars(
                merge_all_view(records).set,
            ).contains_key(k) && vars(merge_all_view(records).set)[k] == vars(
                records.last().set,
            )[k],
        forall|k: Text| #[trigger]
            vars(records.last().append).contains_key(k) ==> vars(
                merge_all_view(records).append,
            ).contains_key(k) && vars(merge_all_view(records).append)[k] == vars(
                records.last().append,
            )[k],
        forall|k: Text| #[trigger]
            vars(records.last().prepend).contains_key(k) ==> vars(
                merge_all_view(records).prepend,
            ).contains_key(k) && vars(merge_all_view(records).prepend)[k] == vars(
                records.last().prepend,
            )[k],
{
    let front = records.drop_last();
    assert forall|i: int| 0 <= i < front.len() implies (#[trigger] front[i]).wf() by {
        assert(front[i] == records[i]);
    }
    lemma_merge_all_wf(front);
    lemma_merge_fields(merge_all_view(front), records.last());
}

/// The items of one list field over a whole sequence of environments, in
/// order.
pub open spec fn joined(fields: Seq<Option<Seq<Text>>>) -> Seq<Text>
    decreases fields.len(),
{
    if fields.len() == 0 {
        Seq::empty()
    } else {
        joined(fields.drop_last()) + items(fields.last())
    }
}

/// The scripts, path entries and reused names of a merged environment are
/// those of all its environments in order: the base first, nothing left out,
/// nothing taken once that occurs twice.
pub proof fn lemma_merge_all_lists(records: Seq<EnvironmentView>)
    ensures
        items(merge_all_view(records).defer) == joined(
            Seq::new(records.len(), |i: int| records[i].defer),
        ),
        items(merge_all_view(records).path) == joined(
            Seq::new(records.len(), |i: int| records[i].path),
        ),
        items(merge_all_view(records).reuse) == joined(
            Seq::new(records.len(), |i: int| records[i].reuse),
        ),
    decreases records.len(),
{
    if records.len() > 0 {
        let front = records.drop_last();
        let last = records.last();
        lemma_merge_all_lists(front);
        let merged = merge_all_view(front);
        lemma_merge_list(merged.defer, last.defer);
        lemma_merge_list(merged.path, last.path);
        lemma_merge_list(merged.reuse, last.reuse);
        assert(Seq::new(records.len(), |i: int| records[i].defer).drop_last() =~= Seq::new(
            front.len(),
            |i: int| front[i].defer,
        ));
        assert(Seq::new(records.len(), |i: int| records[i].path).drop_last() =~= Seq::new(
            front.len(),
            |i: int| front[i].path,
        ));
        assert(Seq::new(records.len(), |i: int| records[i].reuse).drop_last() =~= Seq::new(
            front.len(),
            |i: int| front[i].reuse,
        ));
    }
}

/// An environment that has nothing but a display adds to no list and to no
/// mapping, whether it is merged onto another or another onto it.
pub proof fn lemma_display_only(only: EnvironmentView, other: EnvironmentView)
    requires
        only == (EnvironmentView { display: only.display, ..EnvironmentView::blank() }),
    ensures
        merge_view(other, only) == (EnvironmentView {
            display: merge_text(other.display, only.display),
            ..other
        }),
        merge_view(only, other) == (EnvironmentView {
            display: merge_text(only.display, other.display),
            ..other
        }),
{
}

/// The requested environment wins over everything it brings in: its display
/// and its directory stand in the effective environment, and so does the
/// value of each variable that it sets, appends or prepends.
pub proof fn lemma_root_wins(store: Store, root: Text)
    requires
        store.dom().finite(),
        store_wf(store),
    ensures
        effective(store, root) matches Ok(env) ==> {
            &&& store[root].display is Some ==> env.display == store[root].display
            &&& store[root].go is Some ==> env.go == store[root].go
            &&& forall|k: Text| #[trigger]
                vars(store[root].set).contains_key(k) ==> vars(env.set).contains_key(k) && vars(
                    env.set,
                )[k] == vars(store[root].set)[k]
            &&& forall|k: Text| #[trigger]
                vars(store[root].append).contains_key(k) ==> vars(env.append).contains_key(k)
                    && vars(env.append)[k] == vars(store[root].append)[k]
            &&& forall|k: Text| #[trigger]
                vars(store[root].prepend).contains_key(k) ==> vars(env.prepend).contains_key(k)
                    && vars(env.prepend)[k] == vars(store[root].prepend)[k]
        },
{
    lemma_discovery(store, root);
    match discovery(store, root) {
        Ok(names) => {
            let records = records_of(store, names.reverse());
            assert(records.last() == store[root]);
            assert forall|i: int| 0 <= i < records.len() implies (#[trigger] records[i]).wf() by {
                assert(store.contains_key(names[names.len() - 1 - i]));
            }
            lemma_last_wins(records);
        },
        Err(_) => {},
    }
}

} // verus!
