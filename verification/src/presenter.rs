//! Rendering as lines of text: the names of a configuration in order, and the
//! fields of an environment, one fact per line under a fixed label.

use crate::assoc::Text;
use crate::environment::{record_views, Environment, EnvironmentView};
use crate::store::ConfigStore;
use crate::text::{
    lemma_bytes_le_total, lemma_bytes_le_transitive, string_le, text_le, views,
};
use crate::varmap::{Pair, VarMap};
use vstd::prelude::*;
use vstd::utf8::encode_utf8;

verus! {

/// The names are in ascending order.
pub open spec fn ascending(names: Seq<Text>) -> bool {
    forall|i: int, j: int| 0 <= i <= j < names.len() ==> text_le(names[i], names[j])
}

/// There is one way only to list a set of names in ascending order, each
/// once.
pub proof fn lemma_ascending_unique(a: Seq<Text>, b: Seq<Text>)
    requires
        ascending(a),
        ascending(b),
        a.no_duplicates(),
        b.no_duplicates(),
        a.to_set() == b.to_set(),
    ensures
        a == b,
    decreases a.len(),
{
    a.unique_seq_to_set();
    b.unique_seq_to_set();
    if a.len() == 0 {
        assert(a =~= b);
    } else {
        assert(b.to_set().contains(a[0]));
        assert(a.to_set().contains(b[0]));
        let j = choose|j: int| 0 <= j < b.len() && b[j] == a[0];
        let i = choose|i: int| 0 <= i < a.len() && a[i] == b[0];
        assert(text_le(a[0], a[i]));
        assert(text_le(b[0], b[j]));
        crate::text::lemma_text_le_antisymmetric(a[0], b[0]);
        let x = a.drop_first();
        let y = b.drop_first();
        assert forall|n: Text| x.contains(n) <==> (a.contains(n) && n != a[0]) by {
            if x.contains(n) {
                let k = choose|k: int| 0 <= k < x.len() && x[k] == n;
                assert(a[k + 1] == n);
            }
            if a.contains(n) && n != a[0] {
                let k = choose|k: int| 0 <= k < a.len() && a[k] == n;
                assert(x[k - 1] == n);
            }
        }
        assert forall|n: Text| y.contains(n) <==> (b.contains(n) && n != b[0]) by {
            if y.contains(n) {
                let k = choose|k: int| 0 <= k < y.len() && y[k] == n;
                assert(b[k + 1] == n);
            }
            if b.contains(n) && n != b[0] {
                let k = choose|k: int| 0 <= k < b.len() && b[k] == n;
                assert(y[k - 1] == n);
            }
        }
        assert forall|n: Text| x.to_set().contains(n) <==> y.to_set().contains(n) by {
            assert(a.to_set().contains(n) <==> b.to_set().contains(n));
            assert(a.to_set().contains(n) <==> a.contains(n));
            assert(b.to_set().contains(n) <==> b.contains(n));
            assert(x.to_set().contains(n) <==> x.contains(n));
            assert(y.to_set().contains(n) <==> y.contains(n));
        }
        assert(x.to_set() =~= y.to_set());
        assert forall|p: int, q: int| 0 <= p <= q < x.len() implies text_le(x[p], x[q]) by {
            assert(text_le(a[p + 1], a[q + 1]));
        }
        assert forall|p: int, q: int| 0 <= p <= q < y.len() implies text_le(y[p], y[q]) by {
            assert(text_le(b[p + 1], b[q + 1]));
        }
        lemma_ascending_unique(x, y);
        assert(a =~= seq![a[0]] + x);
        assert(b =~= seq![b[0]] + y);
    }
}

/// Puts `name` into an ascending list of other names, at its place.
fn insert_in_order(sorted: &mut Vec<String>, name: String)
    requires
        ascending(views(old(sorted)@)),
        views(old(sorted)@).no_duplicates(),
        !views(old(sorted)@).contains(name@),
    ensures
        ascending(views(final(sorted)@)),
        views(final(sorted)@).no_duplicates(),
        views(final(sorted)@).to_set() == views(old(sorted)@).to_set().insert(name@),
        final(sorted)@.len() == old(sorted)@.len() + 1,
{
    let ghost before = views(sorted@);
    let mut at: usize = 0;
    while at < sorted.len() && string_le(&sorted[at], &name)
        invariant
            at <= sorted.len(),
            before == views(sorted@),
            forall|q: int| 0 <= q < at ==> text_le(before[q], name@),
        decreases sorted.len() - at,
    {
        at += 1;
    }
    sorted.insert(at, name);
    proof {
        let after = views(sorted@);
        assert(after =~= before.insert(at as int, name@));
        assert forall|i: int, j: int| 0 <= i <= j < after.len() implies text_le(
            after[i],
            after[j],
        ) by {
            let a = encode_utf8(after[i]);
            let b = encode_utf8(after[j]);
            if i == j {
                lemma_bytes_le_total(a, b);
            } else if j == at {
                assert(after[i] == before[i]);
            } else if i == at {
                assert(after[j] == before[j - 1]);
                assert(text_le(before[at as int], before[j - 1]));
                lemma_bytes_le_total(encode_utf8(before[at as int]), encode_utf8(name@));
                lemma_bytes_le_transitive(a, encode_utf8(before[at as int]), b);
            } else {
                let i0 = if i < at { i } else { i - 1 };
                let j0 = if j < at { j } else { j - 1 };
                assert(after[i] == before[i0]);
                assert(after[j] == before[j0]);
            }
        }
        assert forall|i: int, j: int|
            0 <= i < after.len() && 0 <= j < after.len() && i != j implies after[i] != after[j] by {
            let i0 = if i < at { i } else { i - 1 };
            let j0 = if j < at { j } else { j - 1 };
            if i != at {
                assert(after[i] == before[i0]);
            }
            if j != at {
                assert(after[j] == before[j0]);
            }
        }
        assert forall|n: Text| after.contains(n) <==> (n == name@ || before.contains(n)) by {
            if after.contains(n) {
                let i = choose|i: int| 0 <= i < after.len() && after[i] == n;
                if i != at {
                    let i0 = if i < at { i } else { i - 1 };
                    assert(after[i] == before[i0]);
                }
            }
            if before.contains(n) {
                let i = choose|i: int| 0 <= i < before.len() && before[i] == n;
                let i1 = if i < at { i } else { i + 1 };
                assert(after[i1] == before[i]);
            }
            assert(after[at as int] == name@);
        }
        assert(after.to_set() =~= before.to_set().insert(name@));
    }
}

/// The names of the configuration in ascending order, each once.
pub fn list_environments(envs: &ConfigStore) -> (out: Vec<String>)
    ensures
        ascending(views(out@)),
        views(out@).no_duplicates(),
        views(out@).to_set() == envs@.dom(),
        out@.len() == envs@.dom().len(),
{
    let names = envs.names();
    let ghost all = views(names@);
    let mut out: Vec<String> = Vec::new();
    let mut i: usize = 0;
    assert(views(out@).to_set() =~= all.take(0).to_set());
    while i < names.len()
        invariant
            i <= names.len(),
            all == views(names@),
            all.no_duplicates(),
            out@.len() == i,
            ascending(views(out@)),
            views(out@).no_duplicates(),
            views(out@).to_set() == all.take(i as int).to_set(),
        decreases names.len() - i,
    {
        proof {
            if views(out@).contains(all[i as int]) {
                assert(all.take(i as int).to_set().contains(all[i as int]));
                let k = choose|k: int|
                    0 <= k < all.take(i as int).len() && all.take(i as int)[k] == all[i as int];
                assert(all[k] == all[i as int]);
            }
            assert(all.take(i as int + 1) =~= all.take(i as int).push(all[i as int]));
            all.take(i as int).lemma_push_to_set_commute(all[i as int]);
        }
        insert_in_order(&mut out, names[i].clone());
        i += 1;
    }
    proof {
        assert(all.take(i as int) =~= all);
        views(out@).unique_seq_to_set();
    }
    out
}

/// The line for one item under a label: the label, a colon, a space, the item.
pub open spec fn item_line(label: Text, item: Text) -> Text {
    label + ": "@ + item
}

/// The line for one variable under a label: the label, a colon, a space, the
/// key, ` = `, the value.
pub open spec fn pair_line(label: Text, pair: Pair) -> Text {
    label + ": "@ + pair.0 + " = "@ + pair.1
}

/// The line of a single string, if it is there.
pub open spec fn text_lines(label: Text, field: Option<Text>) -> Seq<Text> {
    match field {
        Some(item) => seq![item_line(label, item)],
        None => Seq::empty(),
    }
}

/// One line for each item of a list, in order.
pub open spec fn item_lines(label: Text, field: Option<Seq<Text>>) -> Seq<Text> {
    match field {
        Some(items) => Seq::new(items.len(), |i: int| item_line(label, items[i])),
        None => Seq::empty(),
    }
}

/// One line for each entry of a mapping, in the order of its entries.
pub open spec fn pair_lines(label: Text, field: Option<Seq<Pair>>) -> Seq<Text> {
    match field {
        Some(entries) => Seq::new(entries.len(), |i: int| pair_line(label, entries[i])),
        None => Seq::empty(),
    }
}

/// The lines of one environment: its label, its scripts, what it sets,
/// appends and prepends, its path entries, and the directory to go to. The
/// names that it reuses are not shown.
pub open spec fn environment_lines(env: EnvironmentView) -> Seq<Text> {
    text_lines("DISPLAY"@, env.display) + item_lines("DEFER"@, env.defer) + pair_lines(
        "SET"@,
        env.set,
    ) + pair_lines("APPEND"@, env.append) + pair_lines("PREPEND"@, env.prepend) + item_lines(
        "PATH"@,
        env.path,
    ) + text_lines("GO"@, env.go)
}

/// The lines of several environments, one environment after the other.
pub open spec fn all_lines(records: Seq<EnvironmentView>) -> Seq<Text>
    decreases records.len(),
{
    if records.len() == 0 {
        Seq::empty()
    } else {
        all_lines(records.drop_last()) + environment_lines(records.last())
    }
}

fn make_item_line(label: &str, item: &String) -> (line: String)
    ensures
        line@ == item_line(label@, item@),
{
    let mut line = String::from_str(label);
    line.append(": ");
    line.append(item.as_str());
    line
}

fn make_pair_line(label: &str, key: &String, value: &String) -> (line: String)
    ensures
        line@ == pair_line(label@, (key@, value@)),
{
    let mut line = String::from_str(label);
    line.append(": ");
    line.append(key.as_str());
    line.append(" = ");
    line.append(value.as_str());
    line
}

fn push_text_lines(lines: &mut Vec<String>, label: &str, field: &Option<String>)
    ensures
        views(final(lines)@) == views(old(lines)@) + text_lines(label@, crate::environment::text_of(
            *field,
        )),
{
    let ghost before = views(lines@);
    match field {
        Some(item) => {
            lines.push(make_item_line(label, item));
            assert(views(lines@) =~= before + seq![item_line(label@, item@)]);
        },
        None => {
            assert(views(lines@) =~= before + Seq::<Text>::empty());
        },
    }
}

fn push_item_lines(lines: &mut Vec<String>, label: &str, field: &Option<Vec<String>>)
    ensures
        views(final(lines)@) == views(old(lines)@) + item_lines(
            label@,
            crate::environment::texts_of(*field),
        ),
{
    let ghost before = views(lines@);
    match field {
        Some(items) => {
            let ghost want = item_lines(label@, Some(views(items@)));
            let mut i: usize = 0;
            assert(views(lines@) =~= before + want.take(0));
            while i < items.len()
                invariant
                    i <= items.len(),
                    want == item_lines(label@, Some(views(items@))),
                    views(lines@) == before + want.take(i as int),
                decreases items.len() - i,
            {
                let ghost so_far = views(lines@);
                lines.push(make_item_line(label, &items[i]));
                proof {
                    assert(want[i as int] == item_line(label@, items[i as int]@));
                    assert(views(lines@) =~= so_far.push(want[i as int]));
                    assert(want.take(i as int + 1) =~= want.take(i as int).push(want[i as int]));
                    assert(views(lines@) =~= before + want.take(i as int + 1));
                }
                i += 1;
            }
            assert(want.take(i as int) =~= want);
        },
        None => {
            assert(views(lines@) =~= before + Seq::<Text>::empty());
        },
    }
}

fn push_pair_lines(lines: &mut Vec<String>, label: &str, field: &Option<VarMap>)
    ensures
        views(final(lines)@) == views(old(lines)@) + pair_lines(
            label@,
            crate::environment::entries_of(*field),
        ),
{
    let ghost before = views(lines@);
    match field {
        Some(vars) => {
            let pairs = vars.pairs();
            let ghost want = pair_lines(label@, Some(vars.entries()));
            let mut i: usize = 0;
            assert(views(lines@) =~= before + want.take(0));
            while i < pairs.len()
                invariant
                    i <= pairs.len(),
                    pairs@.len() == vars.entries().len(),
                    forall|j: int|
                        0 <= j < pairs@.len() ==> (#[trigger] pairs@[j]).0@ == vars.entries()[j].0
                            && pairs@[j].1@ == vars.entries()[j].1,
                    want == pair_lines(label@, Some(vars.entries())),
                    views(lines@) == before + want.take(i as int),
                decreases pairs.len() - i,
            {
                let ghost so_far = views(lines@);
                lines.push(make_pair_line(label, &pairs[i].0, &pairs[i].1));
                proof {
                    assert(pairs@[i as int].0@ == vars.entries()[i as int].0);
                    assert(want[i as int] == pair_line(label@, vars.entries()[i as int]));
                    assert(views(lines@) =~= so_far.push(want[i as int]));
                    assert(want.take(i as int + 1) =~= want.take(i as int).push(want[i as int]));
                    assert(views(lines@) =~= before + want.take(i as int + 1));
                }
                i += 1;
            }
            assert(want.take(i as int) =~= want);
        },
        None => {
            assert(views(lines@) =~= before + Seq::<Text>::empty());
        },
    }
}

fn push_environment(lines: &mut Vec<String>, env: &Environment)
    ensures
        views(final(lines)@) == views(old(lines)@) + environment_lines(env@),
{
    let ghost before = views(lines@);
    push_text_lines(lines, "DISPLAY", &env.display);
    push_item_lines(lines, "DEFER", &env.defer);
    push_pair_lines(lines, "SET", &env.set);
    push_pair_lines(lines, "APPEND", &env.append);
    push_pair_lines(lines, "PREPEND", &env.prepend);
    push_item_lines(lines, "PATH", &env.path);
    push_text_lines(lines, "GO", &env.go);
    assert(views(lines@) =~= before + environment_lines(env@));
}

/// The lines that show one environment.
pub fn render_environment(env: &Environment) -> (lines: Vec<String>)
    ensures
        views(lines@) == environment_lines(env@),
{
    let mut lines: Vec<String> = Vec::new();
    push_environment(&mut lines, env);
    assert(views(lines@) =~= environment_lines(env@));
    lines
}

/// The lines that show several environments, each by itself, in the order
/// given.
pub fn render_environments(records: &Vec<Environment>) -> (lines: Vec<String>)
    ensures
        views(lines@) == all_lines(record_views(records@)),
{
    let ghost all = record_views(records@);
    let mut lines: Vec<String> = Vec::new();
    let mut i: usize = 0;
    assert(views(lines@) =~= all_lines(all.take(0)));
    while i < records.len()
        invariant
            i <= records.len(),
            all == record_views(records@),
            views(lines@) == all_lines(all.take(i as int)),
        decreases records.len() - i,
    {
        proof {
            assert(all.take(i as int + 1).drop_last() =~= all.take(i as int));
            assert(all.take(i as int + 1).last() == records[i as int]@);
        }
        push_environment(&mut lines, &records[i]);
        i += 1;
    }
    assert(all.take(i as int) =~= all);
    lines
}

} // verus!
