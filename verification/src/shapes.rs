//! What resolution gives on the common shapes of reuse: one environment on
//! another, two environments on a shared base, an environment on itself.

use crate::assoc::Text;
use crate::environment::EnvironmentView;
use crate::merger::{effective, merge_all_view, merge_view};
use crate::resolver::{discovery, links_from, records_of, walk, Link, ResolveErrorView, Store};
use vstd::prelude::*;

verus! {

/// A walk with nothing pending is over.
pub proof fn lemma_walk_done(store: Store, found: Seq<Text>)
    requires
        store.dom().finite(),
    ensures
        walk(store, Seq::empty(), found) == Ok::<Seq<Text>, Link>(found),
{
}

/// A walk passes over a name that was found before.
pub proof fn lemma_walk_skip(store: Store, pending: Seq<Link>, found: Seq<Text>)
    requires
        store.dom().finite(),
        pending.len() > 0,
        found.contains(pending[0].1),
    ensures
        walk(store, pending, found) == walk(store, pending.drop_first(), found),
{
}

/// A walk takes a new name, and goes on with what that name reuses.
pub proof fn lemma_walk_take(store: Store, pending: Seq<Link>, found: Seq<Text>)
    requires
        store.dom().finite(),
        pending.len() > 0,
        !found.contains(pending[0].1),
        store.contains_key(pending[0].1),
    ensures
        walk(store, pending, found) == walk(
            store,
            links_from(pending[0].1, store[pending[0].1].reuses()) + pending.drop_first(),
            found.push(pending[0].1),
        ),
{
}

/// A walk ends at a new name that the configuration lacks.
pub proof fn lemma_walk_fail(store: Store, pending: Seq<Link>, found: Seq<Text>)
    requires
        store.dom().finite(),
        pending.len() > 0,
        !found.contains(pending[0].1),
        !store.contains_key(pending[0].1),
    ensures
        walk(store, pending, found) == Err::<Seq<Text>, Link>(pending[0]),
{
}

/// The walk from the requested name begins by taking that name.
pub proof fn lemma_walk_start(store: Store, root: Text)
    requires
        store.dom().finite(),
        store.contains_key(root),
    ensures
        walk(store, seq![(root, root)], Seq::empty()) == walk(
            store,
            links_from(root, store[root].reuses()),
            seq![root],
        ),
{
    let first = seq![(root, root)];
    let none = Seq::<Text>::empty();
    assert(first[0].1 == root);
    lemma_walk_take(store, first, none);
    assert(links_from(root, store[root].reuses()) + first.drop_first() =~= links_from(
        root,
        store[root].reuses(),
    ));
    assert(none.push(root) =~= seq![root]);
}

/// An environment that reuses nothing brings in nothing but itself, and is
/// its own effective environment.
pub proof fn lemma_alone(store: Store, root: Text)
    requires
        store.dom().finite(),
        store.contains_key(root),
        store[root].reuses().len() == 0,
    ensures
        discovery(store, root) == Ok::<Seq<Text>, ResolveErrorView>(seq![root]),
        effective(store, root) == Ok::<EnvironmentView, ResolveErrorView>(store[root]),
{
    lemma_walk_start(store, root);
    assert(links_from(root, store[root].reuses()) =~= Seq::<Link>::empty());
    lemma_walk_done(store, seq![root]);
    let names = seq![root];
    assert(records_of(store, names.reverse()) =~= seq![store[root]]);
    crate::merger::lemma_merge_one(store[root]);
}

/// An environment that reuses itself, and nothing else, brings itself in
/// once.
pub proof fn lemma_self_reuse(store: Store, root: Text)
    requires
        store.dom().finite(),
        store.contains_key(root),
        store[root].reuses() == seq![root],
    ensures
        discovery(store, root) == Ok::<Seq<Text>, ResolveErrorView>(seq![root]),
        effective(store, root) == Ok::<EnvironmentView, ResolveErrorView>(store[root]),
{
    lemma_walk_start(store, root);
    let found = seq![root];
    let pending = links_from(root, store[root].reuses());
    assert(pending[0].1 == root);
    assert(found[0] == root);
    lemma_walk_skip(store, pending, found);
    assert(pending.drop_first() =~= Seq::<Link>::empty());
    lemma_walk_done(store, found);
    assert(records_of(store, found.reverse()) =~= seq![store[root]]);
    crate::merger::lemma_merge_one(store[root]);
}

/// Two environments that reuse each other: the requested one comes first in
/// discovery, each is brought in once, and the requested one is applied last.
pub proof fn lemma_mutual_reuse(store: Store, root: Text, other: Text)
    requires
        store.dom().finite(),
        store.contains_key(root),
        store.contains_key(other),
        root != other,
        store[root].reuses() == seq![other],
        store[other].reuses() == seq![root],
    ensures
        discovery(store, root) == Ok::<Seq<Text>, ResolveErrorView>(seq![root, other]),
        effective(store, root) == Ok::<EnvironmentView, ResolveErrorView>(
            merge_view(store[other], store[root]),
        ),
{
    lemma_walk_start(store, root);
    let ahead_a = links_from(root, store[root].reuses());
    let seen_a = seq![root];
    assert(ahead_a[0].1 == other);
    lemma_walk_take(store, ahead_a, seen_a);
    let ahead_b = links_from(other, store[other].reuses()) + ahead_a.drop_first();
    let seen_b = seen_a.push(other);
    assert(seen_b =~= seq![root, other]);
    assert(ahead_b[0].1 == root);
    assert(seen_b[0] == root);
    lemma_walk_skip(store, ahead_b, seen_b);
    assert(ahead_b.drop_first() =~= Seq::<Link>::empty());
    lemma_walk_done(store, seen_b);
    lemma_merge_two(store, seen_b, other, root);
}

/// The environments of a discovery of two names merge to the second found
/// as the base with the first found on top.
proof fn lemma_merge_two(store: Store, names: Seq<Text>, base: Text, top: Text)
    requires
        names == seq![top, base],
    ensures
        merge_all_view(records_of(store, names.reverse())) == merge_view(store[base], store[top]),
{
    let records = records_of(store, names.reverse());
    assert(records =~= seq![store[base], store[top]]);
    assert(records.drop_last() =~= seq![store[base]]);
    crate::merger::lemma_merge_one(store[base]);
}

/// One environment on another: the requested environment reuses a base that
/// reuses nothing. The base is applied first and the requested environment on
/// top of it.
pub proof fn lemma_single_reuse(store: Store, root: Text, base: Text)
    requires
        store.dom().finite(),
        store.contains_key(root),
        store.contains_key(base),
        root != base,
        store[root].reuses() == seq![base],
        store[base].reuses().len() == 0,
    ensures
        discovery(store, root) == Ok::<Seq<Text>, ResolveErrorView>(seq![root, base]),
        effective(store, root) == Ok::<EnvironmentView, ResolveErrorView>(
            merge_view(store[base], store[root]),
        ),
{
    lemma_walk_start(store, root);
    let ahead_a = links_from(root, store[root].reuses());
    let seen_a = seq![root];
    assert(ahead_a[0].1 == base);
    lemma_walk_take(store, ahead_a, seen_a);
    let ahead_b = links_from(base, store[base].reuses()) + ahead_a.drop_first();
    let seen_b = seen_a.push(base);
    assert(seen_b =~= seq![root, base]);
    assert(ahead_b =~= Seq::<Link>::empty());
    lemma_walk_done(store, seen_b);
    lemma_merge_two(store, seen_b, base, root);
}

/// Two environments side by side: the requested environment reuses `first`
/// and `second`, in this order, and neither reuses anything. The one listed
/// first is applied later, so it wins over the other.
pub proof fn lemma_siblings(store: Store, root: Text, first: Text, second: Text)
    requires
        store.dom().finite(),
        store.contains_key(root),
        store.contains_key(first),
        store.contains_key(second),
        root != first,
        root != second,
        first != second,
        store[root].reuses() == seq![first, second],
        store[first].reuses().len() == 0,
        store[second].reuses().len() == 0,
    ensures
        discovery(store, root) == Ok::<Seq<Text>, ResolveErrorView>(seq![root, first, second]),
        effective(store, root) == Ok::<EnvironmentView, ResolveErrorView>(
            merge_view(merge_view(store[second], store[first]), store[root]),
        ),
{
    lemma_walk_start(store, root);
    let ahead_a = links_from(root, store[root].reuses());
    let seen_a = seq![root];
    assert(ahead_a =~= seq![(root, first), (root, second)]);
    lemma_walk_take(store, ahead_a, seen_a);
    let ahead_b = links_from(first, store[first].reuses()) + ahead_a.drop_first();
    let seen_b = seen_a.push(first);
    assert(ahead_b =~= seq![(root, second)]);
    assert(seen_b =~= seq![root, first]);
    lemma_walk_take(store, ahead_b, seen_b);
    let ahead_c = links_from(second, store[second].reuses()) + ahead_b.drop_first();
    let seen_c = seen_b.push(second);
    assert(ahead_c =~= Seq::<Link>::empty());
    assert(seen_c =~= seq![root, first, second]);
    lemma_walk_done(store, seen_c);
    let records = records_of(store, seen_c.reverse());
    assert(records =~= seq![store[second], store[first], store[root]]);
    let two = records.drop_last();
    assert(two =~= seq![store[second], store[first]]);
    assert(two.drop_last() =~= seq![store[second]]);
    crate::merger::lemma_merge_one(store[second]);
    assert(merge_all_view(two) == merge_view(store[second], store[first]));
    assert(merge_all_view(records) == merge_view(merge_all_view(two), store[root]));
}

/// A reference to a name that the configuration lacks: resolution fails and
/// names the missing name and the environment that reuses it.
pub proof fn lemma_missing_reuse(store: Store, root: Text, missing: Text)
    requires
        store.dom().finite(),
        store.contains_key(root),
        !store.contains_key(missing),
        store[root].reuses().len() > 0,
        store[root].reuses()[0] == missing,
    ensures
        discovery(store, root) == Err::<Seq<Text>, ResolveErrorView>(
            ResolveErrorView::UnresolvedReference { missing, referrer: root },
        ),
        effective(store, root) == Err::<EnvironmentView, ResolveErrorView>(
            ResolveErrorView::UnresolvedReference { missing, referrer: root },
        ),
{
    lemma_walk_start(store, root);
    let ahead_a = links_from(root, store[root].reuses());
    let seen_a = seq![root];
    assert(ahead_a[0] == (root, missing));
    lemma_walk_fail(store, ahead_a, seen_a);
}

/// Two environments on a shared base: the requested environment reuses
/// `left` and `right`, in this order, and both reuse `shared`, which reuses
/// nothing. The shared base is brought in once, with `left`. In the order of
/// application it stands after `right` and before `left`.
pub proof fn lemma_diamond(store: Store, root: Text, left: Text, right: Text, shared: Text)
    requires
        store.dom().finite(),
        store.contains_key(root),
        store.contains_key(left),
        store.contains_key(right),
        store.contains_key(shared),
        root != left,
        root != right,
        root != shared,
        left != right,
        left != shared,
        right != shared,
        store[root].reuses() == seq![left, right],
        store[left].reuses() == seq![shared],
        store[right].reuses() == seq![shared],
        store[shared].reuses().len() == 0,
    ensures
        discovery(store, root) == Ok::<Seq<Text>, ResolveErrorView>(
            seq![root, left, shared, right],
        ),
        effective(store, root) == Ok::<EnvironmentView, ResolveErrorView>(
            merge_view(
                merge_view(merge_view(store[right], store[shared]), store[left]),
                store[root],
            ),
        ),
{
    lemma_walk_start(store, root);
    let ahead_a = links_from(root, store[root].reuses());
    let seen_a = seq![root];
    assert(ahead_a =~= seq![(root, left), (root, right)]);
    lemma_walk_take(store, ahead_a, seen_a);
    let ahead_b = links_from(left, store[left].reuses()) + ahead_a.drop_first();
    let seen_b = seen_a.push(left);
    assert(ahead_b =~= seq![(left, shared), (root, right)]);
    assert(seen_b =~= seq![root, left]);
    lemma_walk_take(store, ahead_b, seen_b);
    let ahead_c = links_from(shared, store[shared].reuses()) + ahead_b.drop_first();
    let seen_c = seen_b.push(shared);
    assert(ahead_c =~= seq![(root, right)]);
    assert(seen_c =~= seq![root, left, shared]);
    lemma_walk_take(store, ahead_c, seen_c);
    let ahead_d = links_from(right, store[right].reuses()) + ahead_c.drop_first();
    let seen_d = seen_c.push(right);
    assert(ahead_d =~= seq![(right, shared)]);
    assert(seen_d =~= seq![root, left, shared, right]);
    assert(seen_d[2] == shared);
    lemma_walk_skip(store, ahead_d, seen_d);
    assert(ahead_d.drop_first() =~= Seq::<Link>::empty());
    lemma_walk_done(store, seen_d);
    let records = records_of(store, seen_d.reverse());
    assert(records =~= seq![store[right], store[shared], store[left], store[root]]);
    let three = records.drop_last();
    assert(three =~= seq![store[right], store[shared], store[left]]);
    let two = three.drop_last();
    assert(two =~= seq![store[right], store[shared]]);
    assert(two.drop_last() =~= seq![store[right]]);
    crate::merger::lemma_merge_one(store[right]);
    assert(merge_all_view(two) == merge_view(store[right], store[shared]));
    assert(merge_all_view(three) == merge_view(merge_all_view(two), store[left]));
    assert(merge_all_view(records) == merge_view(merge_all_view(three), store[root]));
}

} // verus!
