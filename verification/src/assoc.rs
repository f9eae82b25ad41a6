//! Lists of keyed entries, as the mathematical model of an insertion-ordered
//! mapping: what it means to look a key up, to put a value under a key, and
//! which map a list stands for.

use vstd::prelude::*;

verus! {

/// A string, as its characters.
pub type Text = Seq<char>;

/// The keys of a list of entries, in order.
pub open spec fn keys_of<W>(entries: Seq<(Text, W)>) -> Seq<Text> {
    Seq::new(entries.len(), |i: int| entries[i].0)
}

/// No key occurs twice in the list.
pub open spec fn distinct_keys<W>(entries: Seq<(Text, W)>) -> bool {
    forall|i: int, j: int|
        0 <= i < entries.len() && 0 <= j < entries.len() && i != j ==> (#[trigger] entries[i]).0
            != (#[trigger] entries[j]).0
}

/// Some entry of the list has this key.
pub open spec fn has_key<W>(entries: Seq<(Text, W)>, key: Text) -> bool {
    exists|i: int| 0 <= i < entries.len() && (#[trigger] entries[i]).0 == key
}

/// The position of the first entry with this key, or the length of the list
/// where there is none.
pub open spec fn position_of<W>(entries: Seq<(Text, W)>, key: Text) -> int
    decreases entries.len(),
{
    if entries.len() == 0 {
        0
    } else if entries[0].0 == key {
        0
    } else {
        1 + position_of(entries.drop_first(), key)
    }
}

/// The list after `key` is given the value `value`: an entry with that key
/// keeps its place and takes the new value, a new key goes to the end.
pub open spec fn put<W>(entries: Seq<(Text, W)>, key: Text, value: W) -> Seq<(Text, W)> {
    let at = position_of(entries, key);
    if at < entries.len() {
        entries.update(at, (key, value))
    } else {
        entries.push((key, value))
    }
}

/// The list after every entry of `later` was put into `base`, first to last.
pub open spec fn put_all<W>(base: Seq<(Text, W)>, later: Seq<(Text, W)>) -> Seq<(Text, W)>
    decreases later.len(),
{
    if later.len() == 0 {
        base
    } else {
        put(put_all(base, later.drop_last()), later.last().0, later.last().1)
    }
}

/// The mapping that a list of entries stands for. Where a key occurs more than
/// once, the first entry counts.
pub open spec fn as_map<W>(entries: Seq<(Text, W)>) -> Map<Text, W> {
    Map::new(
        |k: Text| has_key(entries, k),
        |k: Text| entries[position_of(entries, k)].1,
    )
}

/// `position_of` finds the first entry with the key, and tells when there is
/// none.
pub proof fn lemma_position_of<W>(entries: Seq<(Text, W)>, key: Text)
    ensures
        0 <= position_of(entries, key) <= entries.len(),
        has_key(entries, key) <==> position_of(entries, key) < entries.len(),
        position_of(entries, key) < entries.len() ==> entries[position_of(entries, key)].0 == key,
        forall|i: int| 0 <= i < position_of(entries, key) ==> (#[trigger] entries[i]).0 != key,
    decreases entries.len(),
{
    if entries.len() == 0 {
    } else if entries[0].0 == key {
    } else {
        let rest = entries.drop_first();
        lemma_position_of(rest, key);
        let at = position_of(rest, key);
        assert forall|i: int| 0 <= i < 1 + at implies (#[trigger] entries[i]).0 != key by {
            if i > 0 {
                assert(rest[i - 1] == entries[i]);
            }
        }
        if at < rest.len() {
            assert(rest[at] == entries[at + 1]);
        }
        if has_key(entries, key) {
            let i = choose|i: int| 0 <= i < entries.len() && (#[trigger] entries[i]).0 == key;
            assert(rest[i - 1] == entries[i]);
        }
    }
}

/// The keys of the mapping are the keys of the list, so they are finitely many.
pub proof fn lemma_as_map_dom<W>(entries: Seq<(Text, W)>)
    ensures
        as_map(entries).dom() == keys_of(entries).to_set(),
        as_map(entries).dom().finite(),
{
    let keys = keys_of(entries);
    assert forall|k: Text| has_key(entries, k) <==> keys.contains(k) by {
        if has_key(entries, k) {
            let i = choose|i: int| 0 <= i < entries.len() && (#[trigger] entries[i]).0 == k;
            assert(keys[i] == k);
        }
        if keys.contains(k) {
            let i = choose|i: int| 0 <= i < keys.len() && keys[i] == k;
            assert(entries[i].0 == k);
        }
    }
    assert(as_map(entries).dom() =~= keys.to_set());
    vstd::seq_lib::seq_to_set_is_finite(keys);
}

/// In a list without repeated keys, the entry at `at` is the one that its key
/// is found at.
pub proof fn lemma_position_of_entry<W>(entries: Seq<(Text, W)>, at: int)
    requires
        distinct_keys(entries),
        0 <= at < entries.len(),
    ensures
        position_of(entries, entries[at].0) == at,
{
    lemma_position_of(entries, entries[at].0);
}

/// What `put` does to the list's keys, and to the mapping it stands for.
pub proof fn lemma_put<W>(entries: Seq<(Text, W)>, key: Text, value: W)
    requires
        distinct_keys(entries),
    ensures
        distinct_keys(put(entries, key, value)),
        as_map(put(entries, key, value)) == as_map(entries).insert(key, value),
        has_key(entries, key) ==> keys_of(put(entries, key, value)) == keys_of(entries),
        !has_key(entries, key) ==> keys_of(put(entries, key, value)) == keys_of(entries).push(key),
{
    lemma_position_of(entries, key);
    let after = put(entries, key, value);
    let at = position_of(entries, key);
    assert(distinct_keys(after));
    assert forall|k: Text| has_key(after, k) <==> (k == key || has_key(entries, k)) by {
        if has_key(after, k) {
            let i = choose|i: int| 0 <= i < after.len() && (#[trigger] after[i]).0 == k;
            if k != key {
                assert(entries[i].0 == k);
            }
        }
        if k == key {
            if at < entries.len() {
                assert(after[at].0 == key);
            } else {
                assert(after[entries.len() as int].0 == key);
            }
        } else if has_key(entries, k) {
            let i = choose|i: int| 0 <= i < entries.len() && (#[trigger] entries[i]).0 == k;
            assert(after[i].0 == k);
        }
    }
    assert forall|k: Text| has_key(after, k) implies #[trigger] as_map(after)[k] == as_map(
        entries,
    ).insert(key, value)[k] by {
        lemma_position_of(after, k);
        let i = position_of(after, k);
        if k == key {
            if at < entries.len() {
                lemma_position_of_entry(after, at);
            } else {
                lemma_position_of_entry(after, entries.len() as int);
            }
        } else {
            assert(entries[i].0 == k);
            lemma_position_of_entry(entries, i);
        }
    }
    assert(as_map(after) =~= as_map(entries).insert(key, value));
    if has_key(entries, key) {
        assert(keys_of(after) =~= keys_of(entries));
    } else {
        assert(keys_of(after) =~= keys_of(entries).push(key));
    }
}

/// Putting a whole list into another keeps keys distinct and unites the two
/// mappings, the later one winning where both have a key.
pub proof fn lemma_put_all<W>(base: Seq<(Text, W)>, later: Seq<(Text, W)>)
    requires
        distinct_keys(base),
        distinct_keys(later),
    ensures
        distinct_keys(put_all(base, later)),
        as_map(put_all(base, later)) == as_map(base).union_prefer_right(as_map(later)),
    decreases later.len(),
{
    if later.len() == 0 {
        assert(as_map(later) =~= Map::<Text, W>::empty());
        assert(as_map(base).union_prefer_right(as_map(later)) =~= as_map(base));
    } else {
        let front = later.drop_last();
        let last = later.last();
        assert(front.push(last) =~= later);
        lemma_as_map_push(front, last.0, last.1);
        lemma_put_all(base, front);
        lemma_put(put_all(base, front), last.0, last.1);
        assert(as_map(base).union_prefer_right(as_map(front)).insert(last.0, last.1) =~= as_map(
            base,
        ).union_prefer_right(as_map(front).insert(last.0, last.1)));
    }
}

/// Adding an entry with a new key at the end adds it to the mapping.
pub proof fn lemma_as_map_push<W>(entries: Seq<(Text, W)>, key: Text, value: W)
    requires
        distinct_keys(entries.push((key, value))),
    ensures
        distinct_keys(entries),
        !has_key(entries, key),
        as_map(entries.push((key, value))) == as_map(entries).insert(key, value),
{
    let after = entries.push((key, value));
    assert(distinct_keys(entries)) by {
        assert forall|i: int, j: int|
            0 <= i < entries.len() && 0 <= j < entries.len() && i != j implies (
        #[trigger] entries[i]).0 != (#[trigger] entries[j]).0 by {
            assert(after[i] == entries[i]);
            assert(after[j] == entries[j]);
        }
    }
    assert(!has_key(entries, key)) by {
        if has_key(entries, key) {
            let i = choose|i: int| 0 <= i < entries.len() && (#[trigger] entries[i]).0 == key;
            assert(after[i].0 == key);
            assert(after[entries.len() as int].0 == key);
        }
    }
    lemma_position_of(entries, key);
    lemma_put(entries, key, value);
    assert(put(entries, key, value) == after);
}

} // verus!
