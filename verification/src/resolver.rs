//! Which environments a requested one brings in, and in which order.
//!
//! Names are discovered depth first: the requested name, then what its first
//! reuse brings in, then what the second brings in that is new, and so on. A
//! name that was found once is never taken again, so chains that lead back to
//! themselves end. The environments are applied in the reverse of the order
//! of discovery.

use crate::assoc::Text;
use crate::environment::{record_views, Environment, EnvironmentView};
use crate::store::ConfigStore;
use crate::text::{contains_string, views};
use vstd::prelude::*;

verus! {

/// A configuration as a mapping from names to environments.
pub type Store = Map<Seq<char>, EnvironmentView>;

/// A name still to be looked at, behind the name of the environment that
/// reuses it: `(referrer, name)`.
pub type Link = (Seq<char>, Seq<char>);

/// Why a name could not be resolved, in the model.
pub enum ResolveErrorView {
    UnknownEnvironment { name: Text },
    UnresolvedReference { missing: Text, referrer: Text },
}

/// Why a name could not be resolved.
#[derive(Debug)]
pub enum ResolveError {
    /// The requested name is not in the configuration.
    UnknownEnvironment { name: String },
    /// An environment reuses a name that is not in the configuration.
    UnresolvedReference { missing: String, referrer: String },
}

impl View for ResolveError {
    type V = ResolveErrorView;

    open spec fn view(&self) -> ResolveErrorView {
        match self {
            ResolveError::UnknownEnvironment { name } => ResolveErrorView::UnknownEnvironment {
                name: name@,
            },
            ResolveError::UnresolvedReference {
                missing,
                referrer,
            } => ResolveErrorView::UnresolvedReference { missing: missing@, referrer: referrer@ },
        }
    }
}

/// What is told of an error: which name was not found, and for a reused name
/// also which environment reuses it.
pub open spec fn message_of(e: ResolveErrorView) -> Text {
    match e {
        ResolveErrorView::UnknownEnvironment { name } => "Error: Environment "@ + name
            + " not found"@,
        ResolveErrorView::UnresolvedReference { missing, referrer } => "Error: Environment "@
            + missing + " not found, used by "@ + referrer,
    }
}

impl ResolveError {
    /// The error in words.
    pub fn message(&self) -> (text: String)
        ensures
            text@ == message_of(self@),
    {
        let mut text = String::from_str("Error: Environment ");
        match self {
            ResolveError::UnknownEnvironment { name } => {
                text.append(name.as_str());
                text.append(" not found");
            },
            ResolveError::UnresolvedReference { missing, referrer } => {
                text.append(missing.as_str());
                text.append(" not found, used by ");
                text.append(referrer.as_str());
            },
        }
        text
    }
}

/// The links from one environment to the names it reuses, in order.
pub open spec fn links_from(referrer: Text, names: Seq<Text>) -> Seq<Link> {
    Seq::new(names.len(), |i: int| (referrer, names[i]))
}

/// How many names of the configuration have not been found yet.
pub open spec fn unseen(store: Store, found: Seq<Text>) -> nat {
    store.dom().difference(found.to_set()).len()
}

/// The names found once every pending link has been followed, the first
/// pending link first. A name that was found already is passed over. A new
/// name is added to the names found, and the links to what it reuses are
/// followed before the links that were pending. A name that the configuration
/// lacks ends the walk with the link that led to it.
pub open spec fn walk(store: Store, pending: Seq<Link>, found: Seq<Text>) -> Result<
    Seq<Text>,
    Link,
>
    decreases unseen(store, found), pending.len(),
    when store.dom().finite()
    via walk_decreases
{
    if pending.len() == 0 {
        Ok(found)
    } else {
        let name = pending[0].1;
        let rest = pending.drop_first();
        if found.contains(name) {
            walk(store, rest, found)
        } else if !store.contains_key(name) {
            Err(pending[0])
        } else {
            walk(store, links_from(name, store[name].reuses()) + rest, found.push(name))
        }
    }
}

#[via_fn]
proof fn walk_decreases(store: Store, pending: Seq<Link>, found: Seq<Text>) {
    if pending.len() != 0 {
        let name = pending[0].1;
        if !found.contains(name) && store.contains_key(name) {
            lemma_unseen_decreases(store, found, name);
        }
    }
}

/// Finding a new name of the configuration leaves fewer names unseen.
pub proof fn lemma_unseen_decreases(store: Store, found: Seq<Text>, name: Text)
    requires
        store.dom().finite(),
        store.contains_key(name),
        !found.contains(name),
    ensures
        unseen(store, found.push(name)) < unseen(store, found),
{
    let before = store.dom().difference(found.to_set());
    let after = store.dom().difference(found.push(name).to_set());
    assert(before.contains(name));
    assert forall|n: Text| after.contains(n) <==> (before.contains(n) && n != name) by {
        if found.contains(n) {
            let i = choose|i: int| 0 <= i < found.len() && found[i] == n;
            assert(found.push(name)[i] == n);
        }
        if found.push(name).contains(n) && n != name {
            let i = choose|i: int| 0 <= i < found.push(name).len() && found.push(name)[i] == n;
            assert(found[i] == n);
        }
        assert(found.push(name)[found.len() as int] == name);
    }
    assert(after =~= before.remove(name));
    vstd::set_lib::lemma_len_difference(store.dom(), found.to_set());
}

/// Every name in the sequence is a name of the configuration.
pub open spec fn all_known(store: Store, names: Seq<Text>) -> bool {
    forall|i: int| 0 <= i < names.len() ==> store.contains_key(#[trigger] names[i])
}

/// A walk only adds to the names found: it keeps them in front, repeats no
/// name, and adds names of the configuration only.
pub proof fn lemma_walk_extends(store: Store, pending: Seq<Link>, found: Seq<Text>)
    requires
        store.dom().finite(),
        found.no_duplicates(),
        all_known(store, found),
    ensures
        walk(store, pending, found) matches Ok(names) ==> {
            &&& names.no_duplicates()
            &&& all_known(store, names)
            &&& found.is_prefix_of(names)
        },
    decreases unseen(store, found), pending.len(),
{
    if pending.len() != 0 {
        let name = pending[0].1;
        let rest = pending.drop_first();
        if found.contains(name) {
            lemma_walk_extends(store, rest, found);
        } else if store.contains_key(name) {
            let more = found.push(name);
            lemma_unseen_decreases(store, found, name);
            lemma_walk_extends(store, links_from(name, store[name].reuses()) + rest, more);
            assert(found.is_prefix_of(more));
        }
    }
}

/// Following links one after the other is following the first ones to
/// their end and then the rest: what an environment brings in is itself, then
/// what its first reuse brings in, then what the next one adds, and so on.
pub proof fn lemma_walk_in_turn(store: Store, first: Seq<Link>, rest: Seq<Link>, found: Seq<Text>)
    requires
        store.dom().finite(),
    ensures
        walk(store, first + rest, found) == match walk(store, first, found) {
            Ok(so_far) => walk(store, rest, so_far),
            Err(link) => Err(link),
        },
    decreases unseen(store, found), first.len(),
{
    let all = first + rest;
    if first.len() == 0 {
        assert(all =~= rest);
    } else {
        let name = first[0].1;
        assert(all[0] == first[0]);
        assert(all.drop_first() =~= first.drop_first() + rest);
        if found.contains(name) {
            lemma_walk_in_turn(store, first.drop_first(), rest, found);
        } else if store.contains_key(name) {
            let links = links_from(name, store[name].reuses());
            assert(links + all.drop_first() =~= (links + first.drop_first()) + rest);
            lemma_unseen_decreases(store, found, name);
            lemma_walk_in_turn(store, links + first.drop_first(), rest, found.push(name));
        }
    }
}

/// Some pending link leads to this name.
pub open spec fn awaits(pending: Seq<Link>, name: Text) -> bool {
    exists|j: int| 0 <= j < pending.len() && (#[trigger] pending[j]).1 == name
}

/// Whatever a found name reuses was found as well, or is the end of a pending
/// link.
pub open spec fn reuses_covered(store: Store, pending: Seq<Link>, found: Seq<Text>) -> bool {
    forall|n: Text, r: Text|
        found.contains(n) && #[trigger] store[n].reuses().contains(r) ==> #[trigger] found.contains(
            r,
        ) || awaits(pending, r)
}

/// Whatever a name of the sequence reuses is in the sequence too.
pub open spec fn closed_under_reuse(store: Store, names: Seq<Text>) -> bool {
    reuses_covered(store, Seq::empty(), names)
}

/// A walk that ends well leaves nothing out: what a name it found reuses, it
/// found too.
pub proof fn lemma_walk_closed(store: Store, pending: Seq<Link>, found: Seq<Text>)
    requires
        store.dom().finite(),
        reuses_covered(store, pending, found),
    ensures
        walk(store, pending, found) matches Ok(names) ==> closed_under_reuse(store, names),
    decreases unseen(store, found), pending.len(),
{
    if pending.len() == 0 {
        assert forall|n: Text, r: Text|
            found.contains(n) && #[trigger] store[n].reuses().contains(r) implies #[trigger] found.contains(
            r,
        ) || awaits(Seq::<Link>::empty(), r) by {
            assert(!awaits(pending, r));
        }
    } else {
        let name = pending[0].1;
        let rest = pending.drop_first();
        if found.contains(name) {
            assert forall|n: Text, r: Text|
                found.contains(n) && #[trigger] store[n].reuses().contains(r) implies #[trigger] found.contains(
                r,
            ) || awaits(rest, r) by {
                if !found.contains(r) {
                    let j = choose|j: int| 0 <= j < pending.len() && (#[trigger] pending[j]).1 == r;
                    assert(rest[j - 1] == pending[j]);
                }
            }
            lemma_walk_closed(store, rest, found);
        } else if store.contains_key(name) {
            let more = found.push(name);
            let links = links_from(name, store[name].reuses());
            let next = links + rest;
            assert(more[found.len() as int] == name);
            assert forall|n: Text, r: Text|
                more.contains(n) && #[trigger] store[n].reuses().contains(r) implies #[trigger] more.contains(
                r,
            ) || awaits(next, r) by {
                if n == name {
                    let i = choose|i: int|
                        0 <= i < store[name].reuses().len() && store[name].reuses()[i] == r;
                    assert(next[i] == links[i]);
                    assert(next[i].1 == r);
                } else {
                    let k = choose|k: int| 0 <= k < more.len() && more[k] == n;
                    assert(found[k] == n);
                    if found.contains(r) {
                        let m = choose|m: int| 0 <= m < found.len() && found[m] == r;
                        assert(more[m] == r);
                    } else {
                        let j = choose|j: int|
                            0 <= j < pending.len() && (#[trigger] pending[j]).1 == r;
                        if j > 0 {
                            assert(next[links.len() + j - 1] == pending[j]);
                        }
                    }
                }
            }
            lemma_unseen_decreases(store, found, name);
            lemma_walk_closed(store, next, more);
        }
    }
}

/// The sequence is a chain of names in which each reuses the next.
pub open spec fn is_chain(store: Store, chain: Seq<Text>) -> bool {
    &&& chain.len() > 0
    &&& forall|i: int|
        #![trigger chain[i]]
        0 <= i < chain.len() - 1 ==> store.contains_key(chain[i]) && store[chain[i]].reuses().contains(
            chain[i + 1],
        )
}

/// `to` is `from`, or what `from` reuses, or what that reuses, and so on.
pub open spec fn reaches(store: Store, from: Text, to: Text) -> bool {
    exists|chain: Seq<Text>|
        #![trigger is_chain(store, chain)]
        is_chain(store, chain) && chain[0] == from && chain.last() == to
}

/// A name reaches itself.
pub proof fn lemma_reaches_self(store: Store, name: Text)
    ensures
        reaches(store, name, name),
{
    let chain = seq![name];
    assert(is_chain(store, chain));
    assert(chain[0] == name && chain.last() == name);
}

/// What is reached goes on to what it reuses.
pub proof fn lemma_reaches_step(store: Store, from: Text, via: Text, to: Text)
    requires
        reaches(store, from, via),
        store.contains_key(via),
        store[via].reuses().contains(to),
    ensures
        reaches(store, from, to),
{
    let chain = choose|chain: Seq<Text>|
        #![trigger is_chain(store, chain)]
        is_chain(store, chain) && chain[0] == from && chain.last() == via;
    let longer = chain.push(to);
    assert forall|i: int|
        #![trigger longer[i]]
        0 <= i < longer.len() - 1 implies store.contains_key(longer[i]) && store[longer[i]].reuses().contains(
        longer[i + 1],
    ) by {
        if i < chain.len() - 1 {
            assert(longer[i] == chain[i]);
            assert(longer[i + 1] == chain[i + 1]);
        }
    }
    assert(is_chain(store, longer));
    assert(longer[0] == from && longer.last() == to);
}

/// The link is one of the configuration, and `root` reaches its start.
pub open spec fn link_reached(store: Store, root: Text, link: Link) -> bool {
    &&& reaches(store, root, link.0)
    &&& store.contains_key(link.0)
    &&& store[link.0].reuses().contains(link.1)
}

/// Every name in the sequence is reached from `root`.
pub open spec fn all_reached(store: Store, root: Text, names: Seq<Text>) -> bool {
    forall|i: int| 0 <= i < names.len() ==> reaches(store, root, #[trigger] names[i])
}

/// Every link in the sequence is one of the configuration, and `root`
/// reaches its start.
pub open spec fn all_links_reached(store: Store, root: Text, pending: Seq<Link>) -> bool {
    forall|j: int| 0 <= j < pending.len() ==> link_reached(store, root, #[trigger] pending[j])
}

/// A walk from what `root` reaches stays within what `root` reaches, and
/// where it fails, it fails at a link that `root` reaches.
pub proof fn lemma_walk_reached(store: Store, root: Text, pending: Seq<Link>, found: Seq<Text>)
    requires
        store.dom().finite(),
        all_reached(store, root, found),
        all_links_reached(store, root, pending),
    ensures
        match walk(store, pending, found) {
            Ok(names) => all_reached(store, root, names),
            Err(link) => link_reached(store, root, link) && !store.contains_key(link.1),
        },
    decreases unseen(store, found), pending.len(),
{
    if pending.len() != 0 {
        let name = pending[0].1;
        let rest = pending.drop_first();
        assert(link_reached(store, root, pending[0]));
        assert forall|j: int| 0 <= j < rest.len() implies link_reached(
            store,
            root,
            #[trigger] rest[j],
        ) by {
            assert(rest[j] == pending[j + 1]);
        }
        if found.contains(name) {
            lemma_walk_reached(store, root, rest, found);
        } else if store.contains_key(name) {
            let more = found.push(name);
            let links = links_from(name, store[name].reuses());
            let next = links + rest;
            lemma_reaches_step(store, root, pending[0].0, name);
            assert forall|j: int| 0 <= j < next.len() implies link_reached(
                store,
                root,
                #[trigger] next[j],
            ) by {
                if j < links.len() {
                    assert(next[j] == (name, store[name].reuses()[j]));
                } else {
                    assert(next[j] == rest[j - links.len()]);
                }
            }
            lemma_unseen_decreases(store, found, name);
            lemma_walk_reached(store, root, next, more);
        }
    }
}

/// A sequence that holds the start of a chain, and with each name what it
/// reuses, holds the end of the chain.
pub proof fn lemma_closed_holds_chain(store: Store, names: Seq<Text>, chain: Seq<Text>)
    requires
        closed_under_reuse(store, names),
        is_chain(store, chain),
        names.contains(chain[0]),
    ensures
        names.contains(chain.last()),
    decreases chain.len(),
{
    if chain.len() > 1 {
        let front = chain.drop_last();
        assert forall|i: int|
            #![trigger front[i]]
            0 <= i < front.len() - 1 implies store.contains_key(front[i]) && store[front[i]].reuses().contains(
            front[i + 1],
        ) by {
            assert(front[i] == chain[i]);
            assert(front[i + 1] == chain[i + 1]);
        }
        assert(is_chain(store, front));
        lemma_closed_holds_chain(store, names, front);
        let k = chain.len() - 2;
        assert(chain[k] == front.last());
        assert(store[chain[k]].reuses().contains(chain[k + 1]));
        assert(!awaits(Seq::<Link>::empty(), chain.last()));
    }
}

/// The names that `root` brings in, in the order of discovery, `root` first;
/// or why there is no such list.
pub open spec fn discovery(store: Store, root: Text) -> Result<Seq<Text>, ResolveErrorView> {
    if !store.contains_key(root) {
        Err(ResolveErrorView::UnknownEnvironment { name: root })
    } else {
        match walk(store, seq![(root, root)], Seq::empty()) {
            Ok(names) => Ok(names),
            Err(link) => Err(
                ResolveErrorView::UnresolvedReference { missing: link.1, referrer: link.0 },
            ),
        }
    }
}

/// What a resolution finds, and when it fails.
///
/// Where it ends well, the names begin with `root`, no name occurs twice, each
/// is a name of the configuration, and they are exactly the names that `root`
/// reaches through reuses. Where it fails, either `root` is not in the
/// configuration, or an environment that `root` reaches reuses a name that the
/// configuration lacks. So it ends well exactly where `root` is known and no
/// environment that it reaches reuses an unknown name.
pub proof fn lemma_discovery(store: Store, root: Text)
    requires
        store.dom().finite(),
    ensures
        match discovery(store, root) {
            Ok(names) => {
                &&& names.len() > 0
                &&& names[0] == root
                &&& names.no_duplicates()
                &&& all_known(store, names)
                &&& closed_under_reuse(store, names)
                &&& forall|n: Text| names.contains(n) <==> reaches(store, root, n)
            },
            Err(ResolveErrorView::UnknownEnvironment { name }) => {
                &&& name == root
                &&& !store.contains_key(root)
            },
            Err(ResolveErrorView::UnresolvedReference { missing, referrer }) => {
                &&& store.contains_key(root)
                &&& reaches(store, root, referrer)
                &&& store.contains_key(referrer)
                &&& store[referrer].reuses().contains(missing)
                &&& !store.contains_key(missing)
            },
        },
{
    if store.contains_key(root) {
        let none = Seq::<Text>::empty();
        let first = seq![(root, root)];
        let found = none.push(root);
        let links = links_from(root, store[root].reuses());
        let pending = links + first.drop_first();
        assert(first[0].1 == root);
        assert(walk(store, first, none) == walk(store, pending, found));
        assert(pending =~= links);
        lemma_reaches_self(store, root);
        assert(found[0] == root);
        lemma_walk_extends(store, pending, found);
        assert forall|n: Text, r: Text|
            found.contains(n) && #[trigger] store[n].reuses().contains(r) implies #[trigger] found.contains(
            r,
        ) || awaits(pending, r) by {
            let i = choose|i: int|
                0 <= i < store[root].reuses().len() && store[root].reuses()[i] == r;
            assert(pending[i].1 == r);
        }
        lemma_walk_closed(store, pending, found);
        lemma_walk_reached(store, root, pending, found);
        match walk(store, pending, found) {
            Ok(names) => {
                assert(names.len() >= found.len());
                assert(names[0] == found[0]);
                assert forall|n: Text| names.contains(n) <==> reaches(store, root, n) by {
                    if names.contains(n) {
                        let i = choose|i: int| 0 <= i < names.len() && names[i] == n;
                        assert(reaches(store, root, names[i]));
                    }
                    if reaches(store, root, n) {
                        let chain = choose|chain: Seq<Text>|
                            #![trigger is_chain(store, chain)]
                            is_chain(store, chain) && chain[0] == root && chain.last() == n;
                        lemma_closed_holds_chain(store, names, chain);
                    }
                }
            },
            Err(link) => {},
        }
    }
}

/// What a resolution gave, in the model.
pub open spec fn outcome_view(out: Result<Vec<String>, ResolveError>) -> Result<
    Seq<Text>,
    ResolveErrorView,
> {
    match out {
        Ok(names) => Ok(views(names@)),
        Err(e) => Err(e@),
    }
}

/// Two resolutions of one name against one configuration agree: in what they
/// find and in its order, or in how they fail.
pub proof fn lemma_resolution_repeats(
    store: Store,
    root: Text,
    first: Result<Vec<String>, ResolveError>,
    second: Result<Vec<String>, ResolveError>,
)
    requires
        outcome_view(first) == discovery(store, root),
        outcome_view(second) == discovery(store, root),
    ensures
        outcome_view(first) == outcome_view(second),
        first is Ok <==> second is Ok,
{
}

/// The links that a stack of links stands for, the top of the stack first.
pub open spec fn pending_of(stack: Seq<(String, String)>) -> Seq<Link> {
    Seq::new(stack.len(), |i: int| (stack[stack.len() - 1 - i].0@, stack[stack.len() - 1 - i].1@))
}

/// Puts the links from `referrer` to each of `names` on the stack, so that the
/// first name is on top.
fn push_links(stack: &mut Vec<(String, String)>, referrer: &String, names: &Vec<String>)
    ensures
        pending_of(final(stack)@) == links_from(referrer@, views(names@)) + pending_of(
            old(stack)@,
        ),
{
    let ghost before = pending_of(stack@);
    let ghost links = links_from(referrer@, views(names@));
    let mut i: usize = names.len();
    assert(links.skip(i as int) + before =~= before);
    while i > 0
        invariant
            i <= names.len(),
            links == links_from(referrer@, views(names@)),
            pending_of(stack@) == links.skip(i as int) + before,
        decreases i,
    {
        i -= 1;
        let ghost prior = stack@;
        stack.push((referrer.clone(), names[i].clone()));
        proof {
            let now = pending_of(stack@);
            let want = links.skip(i as int) + before;
            assert(pending_of(prior).len() == prior.len());
            assert(links.len() == names.len());
            assert(now.len() == want.len());
            assert forall|j: int| 0 <= j < now.len() implies now[j] == want[j] by {
                if j == 0 {
                    assert(links.skip(i as int)[0] == links[i as int]);
                } else {
                    assert(now[j] == pending_of(prior)[j - 1]);
                    assert((links.skip(i as int + 1) + before)[j - 1] == want[j]);
                }
            }
            assert(now =~= want);
        }
    }
    assert(links.skip(0) =~= links);
}

/// The names of the environments that `env_name` brings in, itself first, in
/// the order of discovery. They are applied last to first.
///
/// Fails where `env_name` is not in the configuration, and where an
/// environment that is reached reuses a name that the configuration lacks.
pub fn list_all_envs_for(env_name: String, envs: &ConfigStore) -> (out: Result<
    Vec<String>,
    ResolveError,
>)
    ensures
        outcome_view(out) == discovery(envs@, env_name@),
{
    if !envs.contains_key(&env_name) {
        return Err(ResolveError::UnknownEnvironment { name: env_name });
    }
    proof {
        use_type_invariant(envs);
        crate::store::lemma_records_as_store(envs.entries());
    }
    let ghost store = envs@;
    let ghost root = env_name@;
    let mut found: Vec<String> = Vec::new();
    let mut stack: Vec<(String, String)> = Vec::new();
    stack.push((env_name.clone(), env_name));
    assert(pending_of(stack@) =~= seq![(env_name@, env_name@)]);
    assert(views(found@) =~= Seq::<Text>::empty());
    while stack.len() > 0
        invariant
            store == envs@,
            store.dom().finite(),
            store.contains_key(root),
            root == env_name@,
            walk(store, seq![(root, root)], Seq::empty()) == walk(
                store,
                pending_of(stack@),
                views(found@),
            ),
        decreases unseen(store, views(found@)), stack.len(),
    {
        let ghost pending = pending_of(stack@);
        let ghost seen = views(found@);
        let ghost below = stack@.drop_last();
        let link = stack.pop().unwrap();
        let referrer = link.0;
        let name = link.1;
        proof {
            assert(pending[0] == (referrer@, name@));
            assert(pending_of(stack@) =~= pending.drop_first());
        }
        if contains_string(&found, &name) {
            continue ;
        }
        match envs.get(&name) {
            None => {
                assert(walk(store, pending, seen) == Err::<Seq<Text>, Link>(pending[0]));
                assert(discovery(store, root) == Err::<Seq<Text>, ResolveErrorView>(
                    ResolveErrorView::UnresolvedReference { missing: name@, referrer: referrer@ },
                ));
                return Err(ResolveError::UnresolvedReference { missing: name, referrer });
            },
            Some(env) => {
                match &env.reuse {
                    Some(reuse) => {
                        push_links(&mut stack, &name, reuse);
                    },
                    None => {
                        assert(links_from(name@, store[name@].reuses()) + pending.drop_first()
                            =~= pending.drop_first());
                    },
                }
                proof {
                    lemma_unseen_decreases(store, seen, name@);
                }
                found.push(name);
                assert(views(found@) =~= seen.push(name@));
            },
        }
    }
    assert(pending_of(stack@) =~= Seq::<Link>::empty());
    assert(discovery(store, root) == Ok::<Seq<Text>, ResolveErrorView>(views(found@)));
    Ok(found)
}

/// The environments of these names, in the same order.
pub open spec fn records_of(store: Store, names: Seq<Text>) -> Seq<EnvironmentView> {
    Seq::new(names.len(), |i: int| store[names[i]])
}

/// The environments that `env_name` brings in, in the order in which they are
/// applied: the reverse of the order of discovery, so that `env_name` itself
/// comes last.
///
/// Fails as [`list_all_envs_for`] does, and then gives no environment at all.
pub fn resolve(env_name: String, envs: &ConfigStore) -> (out: Result<
    Vec<Environment>,
    ResolveError,
>)
    ensures
        match out {
            Ok(records) => discovery(envs@, env_name@) matches Ok(names) && record_views(records@)
                == records_of(envs@, names.reverse()),
            Err(e) => discovery(envs@, env_name@) == Err::<Seq<Text>, ResolveErrorView>(e@),
        },
{
    proof {
        use_type_invariant(envs);
        crate::store::lemma_records_as_store(envs.entries());
        lemma_discovery(envs@, env_name@);
    }
    let names = match list_all_envs_for(env_name, envs) {
        Ok(names) => names,
        Err(e) => {
            return Err(e);
        },
    };
    let ghost order = views(names@).reverse();
    let mut records: Vec<Environment> = Vec::new();
    let mut i: usize = names.len();
    while i > 0
        invariant
            i <= names.len(),
            all_known(envs@, views(names@)),
            order == views(names@).reverse(),
            records@.len() == names.len() - i,
            forall|j: int| 0 <= j < records@.len() ==> (#[trigger] records@[j])@ == envs@[order[j]],
        decreases i,
    {
        i -= 1;
        assert(envs@.contains_key(views(names@)[i as int]));
        if let Some(env) = envs.get(&names[i]) {
            records.push(env.clone());
        }
    }
    assert(record_views(records@) =~= records_of(envs@, order));
    Ok(records)
}

} // verus!
