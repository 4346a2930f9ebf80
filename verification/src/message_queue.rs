//! The message queue: who subscribed to what, and which clients a published
//! message reaches. Topic filters and topics are sequences of levels (the
//! pieces between `/`); a filter level `+` matches any one topic level and a
//! filter level `#` matches all the levels that remain.

use vstd::prelude::*;
use vstd::utf8::*;
use vstd::multiset::Multiset;
use vstd::string::StrSliceExecFns;
use std::collections::VecDeque;
use crate::client::ClientHandle;
use crate::protocol::publish::PublishPacket;

verus! {

/// The filter level that matches all remaining topic levels.
pub open spec fn multi_level() -> Seq<char> {
    seq!['#']
}

/// The filter level that matches any single topic level.
pub open spec fn single_level() -> Seq<char> {
    seq!['+']
}

/// Whether the topic filter `filter` matches the topic `topic`, both given as
/// their levels: a literal level matches the same level, `+` matches any one
/// level, and `#` matches whatever remains (also nothing).
pub open spec fn filter_matches(filter: Seq<Seq<char>>, topic: Seq<Seq<char>>) -> bool
    decreases filter.len(),
{
    if filter.len() == 0 {
        topic.len() == 0
    } else if filter[0] == multi_level() {
        true
    } else if topic.len() == 0 {
        false
    } else if filter[0] == single_level() || filter[0] == topic[0] {
        filter_matches(filter.drop_first(), topic.drop_first())
    } else {
        false
    }
}

/// The clients of the subscriptions `subs` whose filters match `topic`, in order.
pub open spec fn matching_clients(subs: Seq<(Seq<Seq<char>>, ClientHandle)>, topic: Seq<Seq<char>>) -> Seq<ClientHandle>
    decreases subs.len(),
{
    if subs.len() == 0 {
        Seq::empty()
    } else {
        (if filter_matches(subs[0].0, topic) { seq![subs[0].1] } else { Seq::empty() })
            + matching_clients(subs.drop_first(), topic)
    }
}

/// What one more subscription of `client` to `filter` adds to the clients that `topic` reaches.
pub open spec fn added_client(client: ClientHandle, filter: Seq<Seq<char>>, topic: Seq<Seq<char>>) -> Multiset<ClientHandle> {
    if filter_matches(filter, topic) {
        Multiset::singleton(client)
    } else {
        Multiset::empty()
    }
}

/// The levels of a topic given as string slices.
pub open spec fn levels(segments: Seq<&str>) -> Seq<Seq<char>> {
    segments.map_values(|s: &str| s@)
}

/// The levels held as strings.
pub open spec fn string_levels(q: Seq<String>) -> Seq<Seq<char>> {
    q.map_values(|s: String| s@)
}

/// The subscribers of deliveries, in order.
pub open spec fn delivery_targets(deliveries: Seq<(&ClientHandle, PublishPacket, ClientHandle)>) -> Seq<ClientHandle> {
    deliveries.map_values(|d: (&ClientHandle, PublishPacket, ClientHandle)| *d.0)
}

/// The handles that references point to.
pub open spec fn handles(refs: Seq<&ClientHandle>) -> Seq<ClientHandle> {
    refs.map_values(|h: &ClientHandle| *h)
}

/// Subscriptions with `level` put in front of each filter.
pub open spec fn prefixed(level: Seq<char>, subs: Seq<(Seq<Seq<char>>, ClientHandle)>) -> Seq<(Seq<Seq<char>>, ClientHandle)> {
    subs.map_values(|p: (Seq<Seq<char>>, ClientHandle)| (seq![level] + p.0, p.1))
}

/// The levels of `topic`, split at every `/` (as `str::split('/')` does):
/// always at least one level, possibly empty ones.
pub open spec fn split_topic(topic: Seq<char>) -> Seq<Seq<char>>
    decreases topic.len(),
{
    if topic.len() == 0 {
        seq![Seq::<char>::empty()]
    } else {
        let rest = split_topic(topic.drop_last());
        if topic.last() == '/' {
            rest.push(Seq::<char>::empty())
        } else {
            rest.update(rest.len() - 1, rest.last().push(topic.last()))
        }
    }
}

/// One node of the subscription tree. The node is reached by the topic levels
/// on the path from the root; its subscribers are those whose filter continues
/// from here.
pub struct TopicTree {
    /// Subscribers whose filter ends at this node.
    pub subscribers_exact: Vec<ClientHandle>,
    /// Subscribers whose filter continues with `+` at this node, each with
    /// the levels of its filter after that `+`.
    pub subscribers_single_wildcard: Vec<(ClientHandle, VecDeque<String>)>,
    /// Subscribers whose filter continues with `#` at this node.
    pub subscribers_multi_wildcard: Vec<ClientHandle>,
    /// The nodes one literal level further down, by that level.
    pub children: TopicChildren,
}

/// The children of a tree node, each under its own literal level.
pub struct TopicChildren {
    entries: Vec<(String, TopicTree)>,
}

/// No level occurs twice among `entries`, and none is a wildcard.
pub open spec fn keys_ok(entries: Seq<(String, TopicTree)>) -> bool {
    &&& forall|i: int, j: int| 0 <= i < j < entries.len() ==> entries[i].0@ != entries[j].0@
    &&& forall|i: int| 0 <= i < entries.len() ==> #[trigger] entries[i].0@ != multi_level() && entries[i].0@ != single_level()
}

impl TopicChildren {
    #[verifier::type_invariant]
    spec fn keys_are_literal_and_distinct(self) -> bool {
        keys_ok(self.entries@)
    }

    /// The children, each with its level.
    pub closed spec fn entries(self) -> Seq<(String, TopicTree)> {
        self.entries@
    }
}

/// All subscriptions held below `entries`, each filter with its child's level in front.
pub closed spec fn children_subscriptions(entries: Seq<(String, TopicTree)>) -> Seq<(Seq<Seq<char>>, ClientHandle)>
    decreases entries,
{
    if entries.len() == 0 {
        Seq::empty()
    } else {
        prefixed(entries[0].0@, entries[0].1.subscriptions()) + children_subscriptions(entries.subrange(1, entries.len() as int))
    }
}

impl TopicTree {
    /// The subscriptions of this node's `#` subscribers.
    pub closed spec fn multi_part(self) -> Seq<(Seq<Seq<char>>, ClientHandle)> {
        self.subscribers_multi_wildcard@.map_values(|c: ClientHandle| (seq![multi_level()], c))
    }

    /// The subscriptions of this node's `+` subscribers.
    pub closed spec fn single_part(self) -> Seq<(Seq<Seq<char>>, ClientHandle)> {
        self.subscribers_single_wildcard@.map_values(
            |e: (ClientHandle, VecDeque<String>)| (seq![single_level()] + string_levels(e.1@), e.0))
    }

    /// The subscriptions whose filter ends at this node.
    pub closed spec fn exact_part(self) -> Seq<(Seq<Seq<char>>, ClientHandle)> {
        self.subscribers_exact@.map_values(|c: ClientHandle| (Seq::<Seq<char>>::empty(), c))
    }

    /// Every subscription held in this subtree, as (filter levels from this
    /// node on, client): `#` subscribers, `+` subscribers, those that end
    /// here, then those of the children in order.
    pub closed spec fn subscriptions(self) -> Seq<(Seq<Seq<char>>, ClientHandle)>
        decreases self,
    {
        self.multi_part() + self.single_part() + self.exact_part() + children_subscriptions(self.children.entries@)
    }
}

proof fn lemma_matching_concat(a: Seq<(Seq<Seq<char>>, ClientHandle)>, b: Seq<(Seq<Seq<char>>, ClientHandle)>, t: Seq<Seq<char>>)
    ensures
        matching_clients(a + b, t) == matching_clients(a, t) + matching_clients(b, t),
    decreases a.len(),
{
    if a.len() == 0 {
        assert(a + b =~= b);
        assert(matching_clients(a, t) =~= Seq::<ClientHandle>::empty());
        assert(matching_clients(a, t) + matching_clients(b, t) =~= matching_clients(b, t));
    } else {
        lemma_matching_concat(a.drop_first(), b, t);
        assert((a + b).drop_first() =~= a.drop_first() + b);
        assert((a + b)[0] == a[0]);
        let head = if filter_matches(a[0].0, t) { seq![a[0].1] } else { Seq::<ClientHandle>::empty() };
        assert(head + (matching_clients(a.drop_first(), t) + matching_clients(b, t))
            =~= (head + matching_clients(a.drop_first(), t)) + matching_clients(b, t));
    }
}

proof fn lemma_matching_push(a: Seq<(Seq<Seq<char>>, ClientHandle)>, x: (Seq<Seq<char>>, ClientHandle), t: Seq<Seq<char>>)
    ensures
        matching_clients(a.push(x), t) == matching_clients(a, t)
            + (if filter_matches(x.0, t) { seq![x.1] } else { Seq::<ClientHandle>::empty() }),
{
    lemma_matching_concat(a, seq![x], t);
    assert(a.push(x) =~= a + seq![x]);
    assert(seq![x].drop_first() =~= Seq::<(Seq<Seq<char>>, ClientHandle)>::empty());
    let head = if filter_matches(x.0, t) { seq![x.1] } else { Seq::<ClientHandle>::empty() };
    assert(seq![x][0] == x);
    assert(matching_clients(Seq::<(Seq<Seq<char>>, ClientHandle)>::empty(), t) =~= Seq::<ClientHandle>::empty());
    assert(matching_clients(seq![x], t) == head + matching_clients(seq![x].drop_first(), t));
    assert(matching_clients(seq![x], t) =~= head + Seq::<ClientHandle>::empty());
    assert(head + Seq::<ClientHandle>::empty() =~= head);
}

proof fn lemma_matching_multi(cs: Seq<ClientHandle>, t: Seq<Seq<char>>)
    ensures
        matching_clients(cs.map_values(|c: ClientHandle| (seq![multi_level()], c)), t) == cs,
    decreases cs.len(),
{
    let m = cs.map_values(|c: ClientHandle| (seq![multi_level()], c));
    if cs.len() == 0 {
        assert(m.len() == 0);
    } else {
        lemma_matching_multi(cs.drop_first(), t);
        assert(m.drop_first() =~= cs.drop_first().map_values(|c: ClientHandle| (seq![multi_level()], c)));
        assert(m[0].0[0] == multi_level());
        assert(seq![cs[0]] + cs.drop_first() =~= cs);
    }
}

proof fn lemma_matching_exact(cs: Seq<ClientHandle>, t: Seq<Seq<char>>)
    ensures
        matching_clients(cs.map_values(|c: ClientHandle| (Seq::<Seq<char>>::empty(), c)), t)
            == (if t.len() == 0 { cs } else { Seq::<ClientHandle>::empty() }),
    decreases cs.len(),
{
    let m = cs.map_values(|c: ClientHandle| (Seq::<Seq<char>>::empty(), c));
    if cs.len() == 0 {
        assert(m.len() == 0);
        assert(cs =~= Seq::<ClientHandle>::empty());
    } else {
        lemma_matching_exact(cs.drop_first(), t);
        assert(m.drop_first() =~= cs.drop_first().map_values(|c: ClientHandle| (Seq::<Seq<char>>::empty(), c)));
        assert(m[0].0.len() == 0);
        assert(seq![cs[0]] + cs.drop_first() =~= cs);
        assert(Seq::<ClientHandle>::empty() + Seq::<ClientHandle>::empty() =~= Seq::<ClientHandle>::empty());
    }
}

proof fn lemma_matching_prefixed(level: Seq<char>, subs: Seq<(Seq<Seq<char>>, ClientHandle)>, t: Seq<Seq<char>>)
    requires
        level != multi_level(),
        level != single_level(),
    ensures
        matching_clients(prefixed(level, subs), t) == (if t.len() > 0 && t[0] == level {
            matching_clients(subs, t.drop_first())
        } else {
            Seq::<ClientHandle>::empty()
        }),
    decreases subs.len(),
{
    let p = prefixed(level, subs);
    if subs.len() == 0 {
        assert(p.len() == 0);
    } else {
        lemma_matching_prefixed(level, subs.drop_first(), t);
        assert(p.drop_first() =~= prefixed(level, subs.drop_first()));
        let f = seq![level] + subs[0].0;
        assert(p[0].0 == f);
        assert(f[0] == level);
        assert(f.drop_first() =~= subs[0].0);
        if t.len() > 0 && t[0] == level {
        } else {
            assert(Seq::<ClientHandle>::empty() + Seq::<ClientHandle>::empty() =~= Seq::<ClientHandle>::empty());
        }
    }
}

proof fn lemma_children_push(entries: Seq<(String, TopicTree)>, e: (String, TopicTree))
    ensures
        children_subscriptions(entries.push(e)) == children_subscriptions(entries) + prefixed(e.0@, e.1.subscriptions()),
    decreases entries.len(),
{
    let pushed = entries.push(e);
    if entries.len() == 0 {
        assert(pushed.subrange(1, pushed.len() as int) =~= Seq::<(String, TopicTree)>::empty());
        assert(children_subscriptions(Seq::<(String, TopicTree)>::empty()) =~= Seq::<(Seq<Seq<char>>, ClientHandle)>::empty());
        assert(prefixed(e.0@, e.1.subscriptions()) + Seq::<(Seq<Seq<char>>, ClientHandle)>::empty() =~= prefixed(e.0@, e.1.subscriptions()));
        assert(Seq::<(Seq<Seq<char>>, ClientHandle)>::empty() + prefixed(e.0@, e.1.subscriptions()) =~= prefixed(e.0@, e.1.subscriptions()));
    } else {
        let tail = entries.subrange(1, entries.len() as int);
        lemma_children_push(tail, e);
        assert(pushed.subrange(1, pushed.len() as int) =~= tail.push(e));
        assert(pushed[0] == entries[0]);
        let head = prefixed(entries[0].0@, entries[0].1.subscriptions());
        assert(head + (children_subscriptions(tail) + prefixed(e.0@, e.1.subscriptions()))
            =~= (head + children_subscriptions(tail)) + prefixed(e.0@, e.1.subscriptions()));
    }
}

proof fn lemma_children_split(entries: Seq<(String, TopicTree)>, j: int)
    requires
        0 <= j < entries.len(),
    ensures
        children_subscriptions(entries) == children_subscriptions(entries.take(j))
            + prefixed(entries[j].0@, entries[j].1.subscriptions())
            + children_subscriptions(entries.skip(j + 1)),
    decreases j,
{
    let tail = entries.subrange(1, entries.len() as int);
    if j == 0 {
        assert(entries.take(0) =~= Seq::<(String, TopicTree)>::empty());
        assert(entries.skip(1) =~= tail);
        assert(children_subscriptions(Seq::<(String, TopicTree)>::empty()) =~= Seq::<(Seq<Seq<char>>, ClientHandle)>::empty());
        let head = prefixed(entries[0].0@, entries[0].1.subscriptions());
        assert(Seq::<(Seq<Seq<char>>, ClientHandle)>::empty() + head =~= head);
    } else {
        lemma_children_split(tail, j - 1);
        assert(tail[j - 1] == entries[j]);
        assert(tail.skip(j) =~= entries.skip(j + 1));
        let front = entries.take(j);
        assert(front.subrange(1, front.len() as int) =~= tail.take(j - 1));
        assert(front[0] == entries[0]);
        let head = prefixed(entries[0].0@, entries[0].1.subscriptions());
        let mid = prefixed(entries[j].0@, entries[j].1.subscriptions());
        assert(head + (children_subscriptions(tail.take(j - 1)) + mid + children_subscriptions(tail.skip(j)))
            =~= (head + children_subscriptions(tail.take(j - 1))) + mid + children_subscriptions(tail.skip(j)));
    }
}

proof fn lemma_children_none(entries: Seq<(String, TopicTree)>, t: Seq<Seq<char>>)
    requires
        forall|i: int| 0 <= i < entries.len() ==> #[trigger] entries[i].0@ != multi_level() && entries[i].0@ != single_level(),
        t.len() == 0 || forall|i: int| 0 <= i < entries.len() ==> #[trigger] entries[i].0@ != t[0],
    ensures
        matching_clients(children_subscriptions(entries), t) == Seq::<ClientHandle>::empty(),
    decreases entries.len(),
{
    if entries.len() == 0 {
        assert(children_subscriptions(entries) =~= Seq::<(Seq<Seq<char>>, ClientHandle)>::empty());
    } else {
        let tail = entries.subrange(1, entries.len() as int);
        assert forall|i: int| 0 <= i < tail.len() implies #[trigger] tail[i].0@ != multi_level() && tail[i].0@ != single_level() by {
            assert(tail[i] == entries[i + 1]);
        }
        if t.len() > 0 {
            assert forall|i: int| 0 <= i < tail.len() implies #[trigger] tail[i].0@ != t[0] by {
                assert(tail[i] == entries[i + 1]);
            }
        }
        lemma_children_none(tail, t);
        assert(entries[0].0@ != multi_level() && entries[0].0@ != single_level());
        lemma_matching_prefixed(entries[0].0@, entries[0].1.subscriptions(), t);
        lemma_matching_concat(prefixed(entries[0].0@, entries[0].1.subscriptions()), children_subscriptions(tail), t);
        assert(Seq::<ClientHandle>::empty() + Seq::<ClientHandle>::empty() =~= Seq::<ClientHandle>::empty());
    }
}

proof fn lemma_children_at(entries: Seq<(String, TopicTree)>, j: int, t: Seq<Seq<char>>)
    requires
        keys_ok(entries),
        0 <= j < entries.len(),
        t.len() > 0,
        entries[j].0@ == t[0],
    ensures
        matching_clients(children_subscriptions(entries), t) == matching_clients(entries[j].1.subscriptions(), t.drop_first()),
{
    lemma_children_split(entries, j);
    let front = entries.take(j);
    let back = entries.skip(j + 1);
    assert forall|i: int| 0 <= i < front.len() implies #[trigger] front[i].0@ != multi_level() && front[i].0@ != single_level() by {
        assert(front[i] == entries[i]);
    }
    assert forall|i: int| 0 <= i < front.len() implies #[trigger] front[i].0@ != t[0] by {
        assert(front[i] == entries[i]);
    }
    assert forall|i: int| 0 <= i < back.len() implies #[trigger] back[i].0@ != multi_level() && back[i].0@ != single_level() by {
        assert(back[i] == entries[i + j + 1]);
    }
    assert forall|i: int| 0 <= i < back.len() implies #[trigger] back[i].0@ != t[0] by {
        assert(back[i] == entries[i + j + 1]);
    }
    lemma_children_none(front, t);
    lemma_children_none(back, t);
    let mid = prefixed(entries[j].0@, entries[j].1.subscriptions());
    assert(entries[j].0@ != multi_level() && entries[j].0@ != single_level());
    lemma_matching_prefixed(entries[j].0@, entries[j].1.subscriptions(), t);
    lemma_matching_concat(children_subscriptions(front), mid, t);
    lemma_matching_concat(children_subscriptions(front) + mid, children_subscriptions(back), t);
    let r = matching_clients(entries[j].1.subscriptions(), t.drop_first());
    assert(Seq::<ClientHandle>::empty() + r + Seq::<ClientHandle>::empty() =~= r);
}

proof fn lemma_parts_multiset(tree: TopicTree, t: Seq<Seq<char>>)
    ensures
        matching_clients(tree.subscriptions(), t).to_multiset()
            == matching_clients(tree.multi_part(), t).to_multiset()
                .add(matching_clients(tree.single_part(), t).to_multiset())
                .add(matching_clients(tree.exact_part(), t).to_multiset())
                .add(matching_clients(children_subscriptions(tree.children.entries@), t).to_multiset()),
{
    broadcast use vstd::seq_lib::lemma_multiset_commutative;
    let m = tree.multi_part();
    let si = tree.single_part();
    let e = tree.exact_part();
    let c = children_subscriptions(tree.children.entries@);
    lemma_matching_concat(m, si, t);
    lemma_matching_concat(m + si, e, t);
    lemma_matching_concat(m + si + e, c, t);
    assert(tree.subscriptions() == m + si + e + c);
}

proof fn lemma_push_multiset(a: Seq<(Seq<Seq<char>>, ClientHandle)>, x: (Seq<Seq<char>>, ClientHandle), t: Seq<Seq<char>>)
    ensures
        matching_clients(a.push(x), t).to_multiset()
            == matching_clients(a, t).to_multiset().add(added_client(x.1, x.0, t)),
{
    broadcast use vstd::seq_lib::lemma_multiset_commutative, vstd::seq_lib::group_to_multiset_ensures;
    lemma_matching_push(a, x, t);
    let head = if filter_matches(x.0, t) { seq![x.1] } else { Seq::<ClientHandle>::empty() };
    assert(head.to_multiset() =~= added_client(x.1, x.0, t)) by {
        assert(Seq::<ClientHandle>::empty().to_multiset() =~= Multiset::<ClientHandle>::empty());
        if filter_matches(x.0, t) {
            assert(seq![x.1] =~= Seq::<ClientHandle>::empty().push(x.1));
        }
    }
}

/// The multisets of clients that a topic reaches, before and after one subscription is added.
pub open spec fn reach_grows_by(before: Seq<(Seq<Seq<char>>, ClientHandle)>, after: Seq<(Seq<Seq<char>>, ClientHandle)>, client: ClientHandle, filter: Seq<Seq<char>>) -> bool {
    forall|t: Seq<Seq<char>>| #[trigger] matching_clients(after, t).to_multiset()
        == matching_clients(before, t).to_multiset().add(added_client(client, filter, t))
}

proof fn lemma_filter_literal_head(f: Seq<Seq<char>>, t: Seq<Seq<char>>)
    requires
        f.len() > 0,
        f[0] != multi_level(),
        f[0] != single_level(),
    ensures
        filter_matches(f, t) == (t.len() > 0 && t[0] == f[0] && filter_matches(f.drop_first(), t.drop_first())),
{
}

proof fn lemma_prefixed_reach(key: Seq<char>, old_subs: Seq<(Seq<Seq<char>>, ClientHandle)>, new_subs: Seq<(Seq<Seq<char>>, ClientHandle)>, client: ClientHandle, f: Seq<Seq<char>>)
    requires
        f.len() > 0,
        f[0] == key,
        key != multi_level(),
        key != single_level(),
        reach_grows_by(old_subs, new_subs, client, f.drop_first()),
    ensures
        reach_grows_by(prefixed(key, old_subs), prefixed(key, new_subs), client, f),
{
    broadcast use vstd::seq_lib::group_to_multiset_ensures;
    assert forall|t: Seq<Seq<char>>| #[trigger] matching_clients(prefixed(key, new_subs), t).to_multiset()
        == matching_clients(prefixed(key, old_subs), t).to_multiset().add(added_client(client, f, t)) by {
        lemma_matching_prefixed(key, old_subs, t);
        lemma_matching_prefixed(key, new_subs, t);
        lemma_filter_literal_head(f, t);
        if t.len() > 0 && t[0] == key {
            assert(matching_clients(new_subs, t.drop_first()).to_multiset()
                == matching_clients(old_subs, t.drop_first()).to_multiset().add(added_client(client, f.drop_first(), t.drop_first())));
        } else {
            assert(Seq::<ClientHandle>::empty().to_multiset() =~= Multiset::<ClientHandle>::empty());
            assert(Multiset::<ClientHandle>::empty().add(Multiset::empty()) =~= Multiset::<ClientHandle>::empty());
        }
    }
}

proof fn lemma_child_update_reach(old_entries: Seq<(String, TopicTree)>, new_entries: Seq<(String, TopicTree)>, j: int, client: ClientHandle, f: Seq<Seq<char>>)
    requires
        keys_ok(old_entries),
        0 <= j < old_entries.len(),
        new_entries.len() == old_entries.len(),
        forall|i: int| 0 <= i < old_entries.len() && i != j ==> new_entries[i] == old_entries[i],
        new_entries[j].0 == old_entries[j].0,
        f.len() > 0,
        f[0] == old_entries[j].0@,
        reach_grows_by(old_entries[j].1.subscriptions(), new_entries[j].1.subscriptions(), client, f.drop_first()),
    ensures
        reach_grows_by(children_subscriptions(old_entries), children_subscriptions(new_entries), client, f),
{
    broadcast use vstd::seq_lib::lemma_multiset_commutative;
    let key = old_entries[j].0@;
    assert(key != multi_level() && key != single_level());
    lemma_children_split(old_entries, j);
    lemma_children_split(new_entries, j);
    assert(new_entries.take(j) =~= old_entries.take(j));
    assert(new_entries.skip(j + 1) =~= old_entries.skip(j + 1));
    let a = children_subscriptions(old_entries.take(j));
    let b = children_subscriptions(old_entries.skip(j + 1));
    let p_old = prefixed(key, old_entries[j].1.subscriptions());
    let p_new = prefixed(key, new_entries[j].1.subscriptions());
    lemma_prefixed_reach(key, old_entries[j].1.subscriptions(), new_entries[j].1.subscriptions(), client, f);
    assert forall|t: Seq<Seq<char>>| #[trigger] matching_clients(children_subscriptions(new_entries), t).to_multiset()
        == matching_clients(children_subscriptions(old_entries), t).to_multiset().add(added_client(client, f, t)) by {
        lemma_matching_concat(a, p_old, t);
        lemma_matching_concat(a + p_old, b, t);
        lemma_matching_concat(a, p_new, t);
        lemma_matching_concat(a + p_new, b, t);
        assert(matching_clients(p_new, t).to_multiset()
            == matching_clients(p_old, t).to_multiset().add(added_client(client, f, t)));
        assert(matching_clients(children_subscriptions(new_entries), t).to_multiset()
            =~= matching_clients(children_subscriptions(old_entries), t).to_multiset().add(added_client(client, f, t)));
    }
}

proof fn lemma_child_push_reach(old_entries: Seq<(String, TopicTree)>, key: String, node: TopicTree, client: ClientHandle, f: Seq<Seq<char>>)
    requires
        f.len() > 0,
        f[0] == key@,
        key@ != multi_level(),
        key@ != single_level(),
        reach_grows_by(Seq::empty(), node.subscriptions(), client, f.drop_first()),
    ensures
        reach_grows_by(children_subscriptions(old_entries), children_subscriptions(old_entries.push((key, node))), client, f),
{
    broadcast use vstd::seq_lib::lemma_multiset_commutative;
    lemma_children_push(old_entries, (key, node));
    let p_old = prefixed(key@, Seq::<(Seq<Seq<char>>, ClientHandle)>::empty());
    let p_new = prefixed(key@, node.subscriptions());
    lemma_prefixed_reach(key@, Seq::empty(), node.subscriptions(), client, f);
    let c = children_subscriptions(old_entries);
    assert forall|t: Seq<Seq<char>>| #[trigger] matching_clients(children_subscriptions(old_entries.push((key, node))), t).to_multiset()
        == matching_clients(c, t).to_multiset().add(added_client(client, f, t)) by {
        lemma_matching_concat(c, p_new, t);
        assert(p_old.len() == 0);
        assert(matching_clients(p_old, t).to_multiset() =~= Multiset::<ClientHandle>::empty()) by {
            assert(matching_clients(p_old, t) =~= Seq::<ClientHandle>::empty());
            broadcast use vstd::seq_lib::group_to_multiset_ensures;
        }
        assert(matching_clients(p_new, t).to_multiset() =~= added_client(client, f, t));
        assert(matching_clients(children_subscriptions(old_entries.push((key, node))), t).to_multiset()
            =~= matching_clients(c, t).to_multiset().add(added_client(client, f, t)));
    }
}

proof fn lemma_children_reach(before: TopicTree, after: TopicTree, client: ClientHandle, f: Seq<Seq<char>>)
    requires
        after.multi_part() == before.multi_part(),
        after.single_part() == before.single_part(),
        after.exact_part() == before.exact_part(),
        reach_grows_by(children_subscriptions(before.children.entries@), children_subscriptions(after.children.entries@), client, f),
    ensures
        reach_grows_by(before.subscriptions(), after.subscriptions(), client, f),
{
    assert forall|t: Seq<Seq<char>>| #[trigger] matching_clients(after.subscriptions(), t).to_multiset()
        == matching_clients(before.subscriptions(), t).to_multiset().add(added_client(client, f, t)) by {
        lemma_parts_multiset(before, t);
        lemma_parts_multiset(after, t);
        assert(matching_clients(children_subscriptions(after.children.entries@), t).to_multiset()
            == matching_clients(children_subscriptions(before.children.entries@), t).to_multiset().add(added_client(client, f, t)));
        assert(matching_clients(after.subscriptions(), t).to_multiset()
            =~= matching_clients(before.subscriptions(), t).to_multiset().add(added_client(client, f, t)));
    }
}

/// One more subscription of `client` to `filter` makes every topic that
/// `filter` matches reach `client` once more, and changes nothing else that a
/// topic reaches.
pub proof fn lemma_subscription_reach(
    before: Seq<(Seq<Seq<char>>, ClientHandle)>,
    after: Seq<(Seq<Seq<char>>, ClientHandle)>,
    client: ClientHandle,
    filter: Seq<Seq<char>>,
    topic: Seq<Seq<char>>,
    other: ClientHandle,
)
    requires
        reach_grows_by(before, after, client, filter),
    ensures
        matching_clients(after, topic).to_multiset().count(client)
            == matching_clients(before, topic).to_multiset().count(client) + (if filter_matches(filter, topic) { 1nat } else { 0nat }),
        other != client ==> matching_clients(after, topic).to_multiset().count(other)
            == matching_clients(before, topic).to_multiset().count(other),
{
    broadcast use vstd::multiset::group_multiset_axioms;
    assert(matching_clients(after, topic).to_multiset()
        == matching_clients(before, topic).to_multiset().add(added_client(client, filter, topic)));
}

/// After `client` subscribes to `filter`, every topic that `filter` matches
/// reaches `client`.
pub proof fn lemma_subscriber_is_reached(
    before: Seq<(Seq<Seq<char>>, ClientHandle)>,
    after: Seq<(Seq<Seq<char>>, ClientHandle)>,
    client: ClientHandle,
    filter: Seq<Seq<char>>,
    topic: Seq<Seq<char>>,
)
    requires
        reach_grows_by(before, after, client, filter),
        filter_matches(filter, topic),
    ensures
        matching_clients(after, topic).contains(client),
{
    broadcast use vstd::seq_lib::group_to_multiset_ensures;
    lemma_subscription_reach(before, after, client, filter, topic, client);
    assert(matching_clients(after, topic).to_multiset().count(client) > 0);
}

/// A topic reaches a client exactly when one of the client's subscriptions
/// has a filter that matches the topic.
pub proof fn lemma_reaches_iff_subscribed(subs: Seq<(Seq<Seq<char>>, ClientHandle)>, topic: Seq<Seq<char>>, client: ClientHandle)
    ensures
        matching_clients(subs, topic).contains(client) <==> exists|i: int|
            0 <= i < subs.len() && #[trigger] subs[i].1 == client && filter_matches(subs[i].0, topic),
    decreases subs.len(),
{
    if subs.len() > 0 {
        let tail = subs.drop_first();
        lemma_reaches_iff_subscribed(tail, topic, client);
        let head = if filter_matches(subs[0].0, topic) { seq![subs[0].1] } else { Seq::<ClientHandle>::empty() };
        let rest = matching_clients(tail, topic);
        assert(matching_clients(subs, topic) == head + rest);
        if (head + rest).contains(client) {
            let j = choose|j: int| 0 <= j < (head + rest).len() && (head + rest)[j] == client;
            if j < head.len() {
                assert(subs[0].1 == client && filter_matches(subs[0].0, topic));
            } else {
                assert(rest[j - head.len()] == client);
                let i = choose|i: int| 0 <= i < tail.len() && #[trigger] tail[i].1 == client && filter_matches(tail[i].0, topic);
                assert(subs[i + 1] == tail[i]);
            }
        }
        if exists|i: int| 0 <= i < subs.len() && #[trigger] subs[i].1 == client && filter_matches(subs[i].0, topic) {
            let i = choose|i: int| 0 <= i < subs.len() && #[trigger] subs[i].1 == client && filter_matches(subs[i].0, topic);
            if i == 0 {
                assert((head + rest)[0] == client);
            } else {
                assert(tail[i - 1] == subs[i]);
                let j = choose|j: int| 0 <= j < rest.len() && rest[j] == client;
                assert((head + rest)[head.len() + j] == client);
            }
        }
    }
}

/// The filter `#` matches every topic.
pub proof fn lemma_multi_level_matches_all(topic: Seq<Seq<char>>)
    ensures
        filter_matches(seq![multi_level()], topic),
{
}

/// The filter `+` matches exactly the topics of one level.
pub proof fn lemma_single_level_matches_one(topic: Seq<Seq<char>>)
    ensures
        filter_matches(seq![single_level()], topic) <==> topic.len() == 1,
{
    reveal_with_fuel(filter_matches, 2);
    assert(single_level()[0] != multi_level()[0]);
    assert(seq![single_level()][0] == single_level());
    assert(seq![single_level()].drop_first() =~= Seq::<Seq<char>>::empty());
}

/// A filter level that is no wildcard.
pub open spec fn is_literal(filter: Seq<Seq<char>>) -> bool {
    forall|i: int| 0 <= i < filter.len() ==> #[trigger] filter[i] != multi_level() && filter[i] != single_level()
}

/// A filter without wildcards matches exactly the topic with the same levels.
pub proof fn lemma_literal_filter(filter: Seq<Seq<char>>, topic: Seq<Seq<char>>)
    requires
        is_literal(filter),
    ensures
        filter_matches(filter, topic) <==> filter == topic,
    decreases filter.len(),
{
    if filter.len() > 0 {
        let tail = filter.drop_first();
        assert(is_literal(tail)) by {
            assert forall|i: int| 0 <= i < tail.len() implies #[trigger] tail[i] != multi_level() && tail[i] != single_level() by {
                assert(tail[i] == filter[i + 1]);
            }
        }
        assert(filter[0] != multi_level() && filter[0] != single_level());
        if topic.len() > 0 {
            lemma_literal_filter(tail, topic.drop_first());
            if filter[0] == topic[0] && tail == topic.drop_first() {
                assert(filter =~= topic) by {
                    assert(filter == seq![filter[0]] + tail);
                    assert(topic == seq![topic[0]] + topic.drop_first());
                }
            }
            if filter == topic {
                assert(tail =~= topic.drop_first());
            }
        }
    } else {
        if topic.len() == 0 {
            assert(filter =~= topic);
        }
    }
}

/// A filter of literal levels followed by `#` matches exactly the topics
/// that begin with those levels (the levels alone included).
pub proof fn lemma_multi_level_below(prefix: Seq<Seq<char>>, topic: Seq<Seq<char>>)
    requires
        is_literal(prefix),
    ensures
        filter_matches(prefix.push(multi_level()), topic)
            <==> (prefix.len() <= topic.len() && topic.take(prefix.len() as int) == prefix),
    decreases prefix.len(),
{
    let f = prefix.push(multi_level());
    if prefix.len() == 0 {
        assert(f[0] == multi_level());
        assert(topic.take(0) =~= prefix);
    } else {
        let tail = prefix.drop_first();
        assert(is_literal(tail)) by {
            assert forall|i: int| 0 <= i < tail.len() implies #[trigger] tail[i] != multi_level() && tail[i] != single_level() by {
                assert(tail[i] == prefix[i + 1]);
            }
        }
        assert(f[0] == prefix[0]);
        assert(prefix[0] != multi_level() && prefix[0] != single_level());
        assert(f.drop_first() =~= tail.push(multi_level()));
        if topic.len() > 0 {
            lemma_multi_level_below(tail, topic.drop_first());
            if prefix.len() <= topic.len() && topic.take(prefix.len() as int) == prefix {
                assert(topic[0] == prefix[0]);
                assert(topic.drop_first().take(tail.len() as int) =~= tail);
            }
            if topic[0] == prefix[0] && tail.len() <= topic.drop_first().len() && topic.drop_first().take(tail.len() as int) == tail {
                assert forall|i: int| 0 <= i < prefix.len() implies topic.take(prefix.len() as int)[i] == prefix[i] by {
                    if i > 0 {
                        assert(topic.drop_first().take(tail.len() as int)[i - 1] == tail[i - 1]);
                    }
                }
                assert(topic.take(prefix.len() as int) =~= prefix);
            }
        }
    }
}

/// Whether two strings hold the same characters.
pub fn str_eq(a: &str, b: &str) -> (r: bool)
    ensures
        r == (a@ == b@),
{
    let x = a.as_bytes();
    let y = b.as_bytes();
    proof {
        broadcast use encode_utf8_decode_utf8, encode_utf8_valid_utf8;
        assert(x@ == encode_utf8(a@));
        assert(y@ == encode_utf8(b@));
        assert(decode_utf8(x@) == a@);
        assert(decode_utf8(y@) == b@);
    }
    if x.len() != y.len() {
        return false;
    }
    let mut i: usize = 0;
    while i < x.len()
        invariant
            x@.len() == y@.len(),
            (a@ == b@) ==> (x@ == y@),
            i <= x@.len(),
            forall|j: int| 0 <= j < i ==> x@[j] == y@[j],
        decreases x@.len() - i,
    {
        if x[i] != y[i] {
            return false;
        }
        i = i + 1;
    }
    assert(x@ =~= y@);
    true
}

/// Whether the filter levels `wildcard` match the topic levels `topic[from..]`.
fn wildcard_matches_topic(topic: &[&str], from: usize, wildcard: &VecDeque<String>) -> (r: bool)
    requires
        from <= topic@.len(),
    ensures
        r == filter_matches(string_levels(wildcard@), levels(topic@).skip(from as int)),
{
    proof {
        reveal_strlit("#");
        reveal_strlit("+");
        assert("#"@ =~= multi_level());
        assert("+"@ =~= single_level());
    }
    let ghost w = string_levels(wildcard@);
    let ghost t = levels(topic@);
    let mut i: usize = from;
    let mut j: usize = 0;
    assert(w.skip(0) =~= w);
    loop
        invariant
            from <= i <= topic@.len(),
            j <= wildcard@.len(),
            w == string_levels(wildcard@),
            t == levels(topic@),
            filter_matches(w, t.skip(from as int)) == filter_matches(w.skip(j as int), t.skip(i as int)),
            "#"@ == multi_level(),
            "+"@ == single_level(),
        decreases wildcard@.len() - j,
    {
        let ghost ws = w.skip(j as int);
        let ghost ts = t.skip(i as int);
        if j == wildcard.len() {
            assert(ws.len() == 0);
            return i == topic.len();
        }
        assert(ws[0] == wildcard@[j as int]@);
        let level: &str = wildcard[j].as_str();
        assert(level@ == ws[0]);
        assert(ws.len() > 0);
        if str_eq(level, "#") {
            assert(ws[0] == multi_level());
            return true;
        }
        assert(ws[0] != multi_level());
        if i == topic.len() {
            assert(ts.len() == 0);
            return false;
        }
        assert(ts.len() > 0);
        assert(ts[0] == topic@[i as int]@);
        let same = str_eq(level, "+") || str_eq(level, topic[i]);
        assert(same == (ws[0] == single_level() || ws[0] == ts[0]));
        if !same {
            return false;
        }
        assert(ws.drop_first() =~= w.skip(j + 1));
        assert(ts.drop_first() =~= t.skip(i + 1));
        i = i + 1;
        j = j + 1;
    }
}

/// `t` holds no subscription and has no children.
pub open spec fn empty_node(t: TopicTree) -> bool {
    &&& t.subscribers_exact@.len() == 0
    &&& t.subscribers_single_wildcard@.len() == 0
    &&& t.subscribers_multi_wildcard@.len() == 0
    &&& t.children.entries().len() == 0
}

/// `after` is `before` with `client` subscribed to the filter levels `f`,
/// stored where the tree keeps it: at the node that the literal levels before
/// the first wildcard lead to (a missing node is added, after the children
/// already there), among the `#` subscribers if that wildcard is `#`, among
/// the `+` subscribers with the levels after the `+` if it is `+`, and among
/// the exact subscribers if `f` holds no wildcard. Every other entry and node
/// stays as it was, in its order.
pub open spec fn stored_at(before: TopicTree, after: TopicTree, client: ClientHandle, f: Seq<Seq<char>>) -> bool
    decreases f.len(), 1int,
{
    if f.len() == 0 {
        &&& after.subscribers_exact@ == before.subscribers_exact@.push(client)
        &&& after.subscribers_single_wildcard@ == before.subscribers_single_wildcard@
        &&& after.subscribers_multi_wildcard@ == before.subscribers_multi_wildcard@
        &&& after.children.entries() == before.children.entries()
    } else if f[0] == multi_level() {
        &&& after.subscribers_exact@ == before.subscribers_exact@
        &&& after.subscribers_single_wildcard@ == before.subscribers_single_wildcard@
        &&& after.subscribers_multi_wildcard@ == before.subscribers_multi_wildcard@.push(client)
        &&& after.children.entries() == before.children.entries()
    } else if f[0] == single_level() {
        &&& after.subscribers_exact@ == before.subscribers_exact@
        &&& after.subscribers_single_wildcard@.len() == before.subscribers_single_wildcard@.len() + 1
        &&& after.subscribers_single_wildcard@.drop_last() == before.subscribers_single_wildcard@
        &&& after.subscribers_single_wildcard@.last().0 == client
        &&& string_levels(after.subscribers_single_wildcard@.last().1@) == f.drop_first()
        &&& after.subscribers_multi_wildcard@ == before.subscribers_multi_wildcard@
        &&& after.children.entries() == before.children.entries()
    } else {
        let old_es = before.children.entries();
        let new_es = after.children.entries();
        &&& after.subscribers_exact@ == before.subscribers_exact@
        &&& after.subscribers_single_wildcard@ == before.subscribers_single_wildcard@
        &&& after.subscribers_multi_wildcard@ == before.subscribers_multi_wildcard@
        &&& child_stored_at(old_es, new_es, client, f)
    }
}

/// The children `new_es` are `old_es` with `client` subscribed to `f`, whose
/// first level is literal, below the child under that level.
pub open spec fn child_stored_at(old_es: Seq<(String, TopicTree)>, new_es: Seq<(String, TopicTree)>, client: ClientHandle, f: Seq<Seq<char>>) -> bool
    decreases f.len(), 0int,
{
    if f.len() == 0 {
        false
    } else {
            ||| exists|j: int| {
                &&& 0 <= j < old_es.len()
                &&& #[trigger] old_es[j].0@ == f[0]
                &&& new_es.len() == old_es.len()
                &&& forall|i: int| 0 <= i < old_es.len() && i != j ==> new_es[i] == old_es[i]
                &&& new_es[j].0 == old_es[j].0
                &&& stored_at(old_es[j].1, new_es[j].1, client, f.drop_first())
            }
            ||| {
                &&& forall|i: int| 0 <= i < old_es.len() ==> #[trigger] old_es[i].0@ != f[0]
                &&& new_es.len() == old_es.len() + 1
                &&& new_es.drop_last() == old_es
                &&& new_es.last().0@ == f[0]
                &&& exists|t0: TopicTree| #[trigger] empty_node(t0) && stored_at(t0, new_es.last().1, client, f.drop_first())
            }
    }
}

impl TopicChildren {
    /// No children.
    pub fn new() -> (children: Self)
        ensures
            children.entries() == Seq::<(String, TopicTree)>::empty(),
    {
        TopicChildren { entries: Vec::new() }
    }

    /// The index of the child under `key`, if there is one.
    fn position(&self, key: &str) -> (r: Option<usize>)
        ensures
            match r {
                Some(j) => j < self.entries().len() && self.entries()[j as int].0@ == key@,
                None => forall|i: int| 0 <= i < self.entries().len() ==> #[trigger] self.entries()[i].0@ != key@,
            },
    {
        let mut i: usize = 0;
        while i < self.entries.len()
            invariant
                i <= self.entries@.len(),
                forall|k: int| 0 <= k < i ==> #[trigger] self.entries@[k].0@ != key@,
            decreases self.entries@.len() - i,
        {
            if str_eq(self.entries[i].0.as_str(), key) {
                return Some(i);
            }
            i = i + 1;
        }
        None
    }

    /// The number of children.
    pub fn len(&self) -> (n: usize)
        ensures
            n == self.entries().len(),
    {
        self.entries.len()
    }

    /// Whether there is a child under `key`.
    pub fn contains_key(&self, key: &str) -> (r: bool)
        ensures
            r == exists|i: int| 0 <= i < self.entries().len() && #[trigger] self.entries()[i].0@ == key@,
    {
        match self.position(key) {
            Some(j) => true,
            None => false,
        }
    }

    /// The child under `key`, if there is one.
    pub fn get(&self, key: &str) -> (r: Option<&TopicTree>)
        ensures
            match r {
                Some(child) => exists|i: int|
                    0 <= i < self.entries().len() && #[trigger] self.entries()[i].0@ == key@ && self.entries()[i].1 == *child,
                None => forall|i: int| 0 <= i < self.entries().len() ==> #[trigger] self.entries()[i].0@ != key@,
            },
    {
        match self.position(key) {
            Some(j) => Some(&self.entries[j].1),
            None => None,
        }
    }
}

impl TopicTree {
    /// An empty tree.
    pub fn new() -> (tree: TopicTree)
        ensures
            tree.subscriptions() == Seq::<(Seq<Seq<char>>, ClientHandle)>::empty(),
            tree.subscribers_exact@.len() == 0,
            tree.subscribers_single_wildcard@.len() == 0,
            tree.subscribers_multi_wildcard@.len() == 0,
            tree.children.entries().len() == 0,
    {
        let tree = TopicTree {
            subscribers_exact: Vec::new(),
            subscribers_single_wildcard: Vec::new(),
            subscribers_multi_wildcard: Vec::new(),
            children: TopicChildren::new(),
        };
        assert(children_subscriptions(tree.children.entries@) =~= Seq::<(Seq<Seq<char>>, ClientHandle)>::empty());
        assert(tree.subscriptions() =~= Seq::<(Seq<Seq<char>>, ClientHandle)>::empty());
        tree
    }

    /// The subscribers whose filter matches `segments`, the levels of a
    /// topic, appended to `subscribers`: those of this tree's subscriptions
    /// that match, in the order of `subscriptions()`.
    pub fn get_subscribers<'a>(&'a self, segments: &[&str], subscribers: &mut Vec<&'a ClientHandle>)
        ensures
            handles(final(subscribers)@) == handles(old(subscribers)@)
                + matching_clients(self.subscriptions(), levels(segments@)),
    {
        self.collect_subscribers(segments, 0, subscribers);
        assert(levels(segments@).skip(0) =~= levels(segments@));
    }

    /// Subscribes `client` to the topic filter whose levels are `segments`:
    /// afterwards every topic that the filter matches reaches `client` once
    /// more, and what every other topic reaches is unchanged.
    pub fn subscribe(&mut self, client: ClientHandle, segments: &[&str])
        ensures
            reach_grows_by(old(self).subscriptions(), final(self).subscriptions(), client, levels(segments@)),
            stored_at(*old(self), *final(self), client, levels(segments@)),
    {
        self.subscribe_from(client, segments, 0);
        assert(levels(segments@).skip(0) =~= levels(segments@));
    }

    fn subscribe_from(&mut self, client: ClientHandle, segments: &[&str], from: usize)
        requires
            from <= segments@.len(),
        ensures
            reach_grows_by(old(self).subscriptions(), final(self).subscriptions(), client, levels(segments@).skip(from as int)),
            stored_at(*old(self), *final(self), client, levels(segments@).skip(from as int)),
        decreases segments@.len() - from,
    {
        proof {
            use_type_invariant(&self.children);
            reveal_strlit("#");
            reveal_strlit("+");
            assert("#"@ =~= multi_level());
            assert("+"@ =~= single_level());
        }
        let ghost before = *self;
        let ghost f = levels(segments@).skip(from as int);
        if from == segments.len() {
            self.subscribers_exact.push(client);
            proof {
                let x = (Seq::<Seq<char>>::empty(), client);
                assert(self.exact_part() =~= before.exact_part().push(x));
                assert(f.len() == 0);
                assert(x.0 =~= f);
                assert forall|t: Seq<Seq<char>>| #[trigger] matching_clients(self.subscriptions(), t).to_multiset()
                    == matching_clients(before.subscriptions(), t).to_multiset().add(added_client(client, f, t)) by {
                    lemma_parts_multiset(before, t);
                    lemma_parts_multiset(*self, t);
                    lemma_push_multiset(before.exact_part(), x, t);
                    assert(matching_clients(self.subscriptions(), t).to_multiset()
                        =~= matching_clients(before.subscriptions(), t).to_multiset().add(added_client(client, f, t)));
                }
            }
            return;
        }
        let level = segments[from];
        assert(f[0] == level@);
        if str_eq(level, "#") {
            self.subscribers_multi_wildcard.push(client);
            proof {
                let x = (seq![multi_level()], client);
                assert(self.multi_part() =~= before.multi_part().push(x));
                assert forall|t: Seq<Seq<char>>| #[trigger] matching_clients(self.subscriptions(), t).to_multiset()
                    == matching_clients(before.subscriptions(), t).to_multiset().add(added_client(client, f, t)) by {
                    lemma_parts_multiset(before, t);
                    lemma_parts_multiset(*self, t);
                    lemma_push_multiset(before.multi_part(), x, t);
                    assert(filter_matches(x.0, t) && filter_matches(f, t));
                    assert(matching_clients(self.subscriptions(), t).to_multiset()
                        =~= matching_clients(before.subscriptions(), t).to_multiset().add(added_client(client, f, t)));
                }
            }
            return;
        }
        if str_eq(level, "+") {
            let mut remaining: VecDeque<String> = VecDeque::new();
            let mut k: usize = from + 1;
            while k < segments.len()
                invariant
                    from + 1 <= k <= segments@.len(),
                    string_levels(remaining@) == levels(segments@).subrange(from + 1, k as int),
                decreases segments@.len() - k,
            {
                let ghost old_remaining = remaining@;
                let piece: String = segments[k].to_owned();
                assert(piece@ == segments@[k as int]@);
                remaining.push_back(piece);
                assert(remaining@ == old_remaining.push(piece));
                assert(string_levels(remaining@) =~= string_levels(old_remaining).push(piece@));
                assert(levels(segments@)[k as int] == segments@[k as int]@);
                assert(levels(segments@).subrange(from + 1, k + 1) =~= levels(segments@).subrange(from + 1, k as int).push(segments@[k as int]@));
                k = k + 1;
            }
            let ghost rest = remaining@;
            self.subscribers_single_wildcard.push((client, remaining));
            proof {
                let x = (seq![single_level()] + string_levels(rest), client);
                assert(self.single_part() =~= before.single_part().push(x));
                assert(x.0 =~= f);
                assert forall|t: Seq<Seq<char>>| #[trigger] matching_clients(self.subscriptions(), t).to_multiset()
                    == matching_clients(before.subscriptions(), t).to_multiset().add(added_client(client, f, t)) by {
                    lemma_parts_multiset(before, t);
                    lemma_parts_multiset(*self, t);
                    lemma_push_multiset(before.single_part(), x, t);
                    assert(matching_clients(self.subscriptions(), t).to_multiset()
                        =~= matching_clients(before.subscriptions(), t).to_multiset().add(added_client(client, f, t)));
                }
                let singles = self.subscribers_single_wildcard@;
                assert(singles.drop_last() =~= before.subscribers_single_wildcard@);
                assert(singles.last().1@ == rest);
                assert(f.drop_first() =~= string_levels(rest));
                assert(f[0] == single_level());
                assert(f[0] != multi_level());
                assert(self.children.entries() == before.children.entries());
            }
            return;
        }
        // A literal level: the subscription goes to the child under it.
        let position = self.children.position(level);
        let mut entries: Vec<(String, TopicTree)> = Vec::new();
        std::mem::swap(&mut entries, &mut self.children.entries);
        let ghost old_entries = entries@;
        assert(old_entries == before.children.entries@);
        assert(keys_ok(old_entries));
        assert(level@ != multi_level() && level@ != single_level());
        match position {
            Some(j) => {
                assert(old_entries[j as int].0@ == level@) by {
                    assert(before.children.entries()[j as int].0@ == level@);
                }
                entries[j].1.subscribe_from(client, segments, from + 1);
                proof {
                    assert(f.drop_first() =~= levels(segments@).skip(from + 1));
                    lemma_child_update_reach(old_entries, entries@, j as int, client, f);
                }
                assert(entries@.len() == old_entries.len());
                assert(entries@[j as int].0 == old_entries[j as int].0);
                assert(forall|i: int| 0 <= i < entries@.len() && i != j ==> entries@[i] == old_entries[i]);
                assert(stored_at(old_entries[j as int].1, entries@[j as int].1, client, f.drop_first()));
                assert(child_stored_at(old_entries, entries@, client, f));
            },
            None => {
                let mut node = TopicTree::new();
                let ghost fresh = node;
                node.subscribe_from(client, segments, from + 1);
                let key: String = level.to_owned();
                proof {
                    assert(f.drop_first() =~= levels(segments@).skip(from + 1));
                    lemma_child_push_reach(old_entries, key, node, client, f);
                    assert(empty_node(fresh));
                    assert(stored_at(fresh, node, client, f.drop_first()));
                }
                let ghost new_node = node;
                entries.push((key, node));
                proof {
                    assert(entries@.drop_last() =~= old_entries);
                    assert(entries@.last().1 == new_node);
                    assert(entries@.last().0@ == f[0]);
                }
                proof {
                    assert forall|i: int| 0 <= i < old_entries.len() implies #[trigger] old_entries[i].0@ != level@ by {
                        assert(before.children.entries()[i].0@ != level@);
                    }
                    assert(child_stored_at(old_entries, entries@, client, f));
                    assert(entries@ == old_entries.push((key, node)));
                    assert(keys_ok(entries@)) by {
                        assert forall|i: int, k: int| 0 <= i < k < entries@.len() implies entries@[i].0@ != entries@[k].0@ by {
                            if k == old_entries.len() {
                                assert(entries@[i] == old_entries[i]);
                            } else {
                                assert(entries@[i] == old_entries[i]);
                                assert(entries@[k] == old_entries[k]);
                            }
                        }
                        assert forall|i: int| 0 <= i < entries@.len() implies #[trigger] entries@[i].0@ != multi_level() && entries@[i].0@ != single_level() by {
                            if i < old_entries.len() {
                                assert(entries@[i] == old_entries[i]);
                            }
                        }
                    }
                }
            },
        }
        proof {
            assert(keys_ok(entries@)) by {
                assert forall|i: int, k: int| 0 <= i < k < entries@.len() implies entries@[i].0@ != entries@[k].0@ by {
                    if k == old_entries.len() {
                    } else {
                        assert(entries@[i].0 == old_entries[i].0);
                        assert(entries@[k].0 == old_entries[k].0);
                    }
                }
                assert forall|i: int| 0 <= i < entries@.len() implies #[trigger] entries@[i].0@ != multi_level() && entries@[i].0@ != single_level() by {
                    if i < old_entries.len() {
                        assert(entries@[i].0 == old_entries[i].0);
                    }
                }
            }
        }
        self.children.entries = entries;
        proof {
            assert(f[0] == level@);
            assert(self.children.entries() == entries@);
            assert(stored_at(before, *self, client, f));
            assert(self.multi_part() == before.multi_part());
            assert(self.single_part() == before.single_part());
            assert(self.exact_part() == before.exact_part());
            lemma_children_reach(before, *self, client, f);
        }

    }

    fn collect_subscribers<'a>(&'a self, segments: &[&str], from: usize, subscribers: &mut Vec<&'a ClientHandle>)
        requires
            from <= segments@.len(),
        ensures
            handles(final(subscribers)@) == handles(old(subscribers)@)
                + matching_clients(self.subscriptions(), levels(segments@).skip(from as int)),
        decreases segments@.len() - from,
    {
        proof {
            use_type_invariant(&self.children);
        }
        let ghost t = levels(segments@).skip(from as int);
        let ghost start = handles(subscribers@);
        let ghost multi_part = self.multi_part();
        let ghost single_part = self.single_part();
        let ghost exact_part = self.exact_part();
        let ghost children_part = children_subscriptions(self.children.entries@);

        // `#` subscribers match every topic.
        let mut k: usize = 0;
        while k < self.subscribers_multi_wildcard.len()
            invariant
                k <= self.subscribers_multi_wildcard@.len(),
                handles(subscribers@) == start + self.subscribers_multi_wildcard@.take(k as int),
            decreases self.subscribers_multi_wildcard@.len() - k,
        {
            let ghost before = subscribers@;
            subscribers.push(&self.subscribers_multi_wildcard[k]);
            assert(handles(subscribers@) =~= handles(before).push(self.subscribers_multi_wildcard@[k as int]));
            assert(self.subscribers_multi_wildcard@.take(k + 1) =~= self.subscribers_multi_wildcard@.take(k as int).push(self.subscribers_multi_wildcard@[k as int]));
            k = k + 1;
        }
        proof {
            lemma_matching_multi(self.subscribers_multi_wildcard@, t);
            assert(self.subscribers_multi_wildcard@.take(k as int) =~= self.subscribers_multi_wildcard@);
        }
        let ghost after_multi = handles(subscribers@);

        // `+` subscribers match when the rest of their filter matches the rest of the topic.
        let mut k: usize = 0;
        while k < self.subscribers_single_wildcard.len()
            invariant
                k <= self.subscribers_single_wildcard@.len(),
                from <= segments@.len(),
                t == levels(segments@).skip(from as int),
                single_part == self.subscribers_single_wildcard@.map_values(
                    |e: (ClientHandle, VecDeque<String>)| (seq![single_level()] + string_levels(e.1@), e.0)),
                handles(subscribers@) == after_multi + matching_clients(single_part.take(k as int), t),
            decreases self.subscribers_single_wildcard@.len() - k,
        {
            let ghost before = subscribers@;
            let entry = &self.subscribers_single_wildcard[k];
            let hit = from < segments.len() && wildcard_matches_topic(segments, from + 1, &entry.1);
            proof {
                let x = single_part[k as int];
                assert(x == (seq![single_level()] + string_levels(entry.1@), entry.0));
                assert(x.0[0] == single_level());
                assert(single_level()[0] != multi_level()[0]);
                assert(t.len() == segments@.len() - from);
                assert(x.0.drop_first() =~= string_levels(entry.1@));
                if t.len() > 0 {
                    assert(t.drop_first() =~= levels(segments@).skip(from + 1));
                }
                assert(filter_matches(x.0, t) == hit);
                lemma_matching_push(single_part.take(k as int), x, t);
                assert(single_part.take(k + 1) =~= single_part.take(k as int).push(x));
            }
            if hit {
                subscribers.push(&entry.0);
                assert(handles(subscribers@) =~= handles(before).push(entry.0));
            }
            proof {
                let x = single_part[k as int];
                let head = if filter_matches(x.0, t) { seq![x.1] } else { Seq::<ClientHandle>::empty() };
                assert(after_multi + matching_clients(single_part.take(k as int), t) + head
                    =~= after_multi + (matching_clients(single_part.take(k as int), t) + head));
            }
            k = k + 1;
        }
        proof {
            assert(single_part.take(k as int) =~= single_part);
        }
        let ghost after_single = handles(subscribers@);

        // Subscribers whose filter ends here match when the topic ends here.
        if from == segments.len() {
            let mut k: usize = 0;
            while k < self.subscribers_exact.len()
                invariant
                    k <= self.subscribers_exact@.len(),
                    handles(subscribers@) == after_single + self.subscribers_exact@.take(k as int),
                decreases self.subscribers_exact@.len() - k,
            {
                let ghost before = subscribers@;
                subscribers.push(&self.subscribers_exact[k]);
                assert(handles(subscribers@) =~= handles(before).push(self.subscribers_exact@[k as int]));
                assert(self.subscribers_exact@.take(k + 1) =~= self.subscribers_exact@.take(k as int).push(self.subscribers_exact@[k as int]));
                k = k + 1;
            }
            assert(self.subscribers_exact@.take(k as int) =~= self.subscribers_exact@);
        }
        proof {
            lemma_matching_exact(self.subscribers_exact@, t);
            if from < segments@.len() {
                assert(handles(subscribers@) =~= after_single + Seq::<ClientHandle>::empty());
            }
        }
        let ghost after_exact = handles(subscribers@);

        // The child under the topic's next level holds the rest.
        if from < segments.len() {
            match self.children.position(segments[from]) {
                Some(j) => {
                    let child = &self.children.entries[j].1;
                    child.collect_subscribers(segments, from + 1, subscribers);
                    proof {
                        assert(t[0] == segments@[from as int]@);
                        assert(t.drop_first() =~= levels(segments@).skip(from + 1));
                        lemma_children_at(self.children.entries@, j as int, t);
                    }
                },
                None => {
                    proof {
                        assert(t[0] == segments@[from as int]@);
                        assert forall|i: int| 0 <= i < self.children.entries@.len()
                            implies #[trigger] self.children.entries@[i].0@ != t[0] by {
                            assert(self.children.entries()[i].0@ != segments@[from as int]@);
                        }
                        lemma_children_none(self.children.entries@, t);
                        assert(handles(subscribers@) =~= after_exact + Seq::<ClientHandle>::empty());
                    }
                },
            }
        } else {
            proof {
                lemma_children_none(self.children.entries@, t);
                assert(handles(subscribers@) =~= after_exact + Seq::<ClientHandle>::empty());
            }
        }
        proof {
            lemma_matching_concat(multi_part, single_part, t);
            lemma_matching_concat(multi_part + single_part, exact_part, t);
            lemma_matching_concat(multi_part + single_part + exact_part, children_part, t);
            assert(self.subscriptions() == multi_part + single_part + exact_part + children_part);
        }
    }
}

/// Messages for the message queue.
pub enum MQMessage {
    /// `client` subscribes to the topic filter `topic`.
    Subscribe { client: ClientHandle, topic: String },
    /// `sender` published `msg` on `topic`.
    Publish { topic: String, msg: PublishPacket, sender: ClientHandle },
}

proof fn lemma_split_topic_nonempty(topic: Seq<char>)
    ensures
        split_topic(topic).len() >= 1,
    decreases topic.len(),
{
    if topic.len() > 0 {
        lemma_split_topic_nonempty(topic.drop_last());
    }
}

/// The levels `ls` written out with `/` between neighbours.
pub open spec fn join_levels(ls: Seq<Seq<char>>) -> Seq<char>
    decreases ls.len(),
{
    if ls.len() <= 1 {
        if ls.len() == 1 { ls[0] } else { Seq::empty() }
    } else {
        join_levels(ls.drop_last()) + seq!['/'] + ls.last()
    }
}

/// Splitting a topic cuts it at its slashes and nowhere else: the levels
/// joined with `/` give the topic back, and no level holds a `/`.
pub proof fn lemma_split_topic_at_slashes(topic: Seq<char>)
    ensures
        split_topic(topic).len() >= 1,
        join_levels(split_topic(topic)) == topic,
        forall|i: int, j: int| 0 <= i < split_topic(topic).len() && 0 <= j < split_topic(topic)[i].len()
            ==> #[trigger] split_topic(topic)[i][j] != '/',
    decreases topic.len(),
{
    if topic.len() == 0 {
        assert(join_levels(seq![Seq::<char>::empty()]) == Seq::<char>::empty());
    } else {
        let front = topic.drop_last();
        let c = topic.last();
        lemma_split_topic_at_slashes(front);
        let rest = split_topic(front);
        let ls = split_topic(topic);
        assert(front.push(c) =~= topic);
        if c == '/' {
            assert(ls == rest.push(Seq::<char>::empty()));
            assert(ls.drop_last() =~= rest);
            assert(join_levels(ls) == join_levels(rest) + seq!['/'] + Seq::<char>::empty());
            assert(join_levels(ls) =~= topic);
            assert forall|i: int, j: int| 0 <= i < ls.len() && 0 <= j < ls[i].len() implies #[trigger] ls[i][j] != '/' by {
                assert(i < rest.len());
                assert(ls[i] == rest[i]);
            }
        } else {
            let last = rest.last().push(c);
            assert(ls == rest.update(rest.len() - 1, last));
            if rest.len() == 1 {
                assert(join_levels(rest) == rest[0]);
                assert(join_levels(ls) == ls[0]);
                assert(join_levels(ls) =~= topic);
            } else {
                assert(ls.drop_last() =~= rest.drop_last());
                assert(join_levels(rest) == join_levels(rest.drop_last()) + seq!['/'] + rest.last());
                assert(join_levels(ls) == join_levels(rest.drop_last()) + seq!['/'] + last);
                assert(join_levels(ls) =~= topic);
            }
            assert forall|i: int, j: int| 0 <= i < ls.len() && 0 <= j < ls[i].len() implies #[trigger] ls[i][j] != '/' by {
                if i == rest.len() - 1 {
                    if j < rest.last().len() {
                        assert(ls[i][j] == rest[i][j]);
                    } else {
                        assert(ls[i][j] == c);
                    }
                } else {
                    assert(ls[i] == rest[i]);
                }
            }
        }
    }
}

/// A topic without `/` is a single level.
pub proof fn lemma_topic_without_slash(topic: Seq<char>)
    requires
        forall|j: int| 0 <= j < topic.len() ==> topic[j] != '/',
    ensures
        split_topic(topic) == seq![topic],
    decreases topic.len(),
{
    if topic.len() > 0 {
        let front = topic.drop_last();
        lemma_topic_without_slash(front);
        assert(topic.last() != '/');
        assert(front.push(topic.last()) =~= topic);
        let rest = split_topic(front);
        assert(rest.last() == front);
        assert(split_topic(topic) == rest.update(0, front.push(topic.last())));
        assert(split_topic(topic) =~= seq![topic]);
    } else {
        assert(topic =~= Seq::<char>::empty());
        assert(split_topic(topic) =~= seq![topic]);
    }
}

/// The levels of `topic`: its pieces between slashes, in order, empty pieces included.
pub fn split_levels<'a>(topic: &'a str) -> (pieces: Vec<&'a str>)
    ensures
        levels(pieces@) == split_topic(topic@),
{
    let n = topic.unicode_len();
    let mut pieces: Vec<&'a str> = Vec::new();
    let mut start: usize = 0;
    let mut i: usize = 0;
    assert(topic@.subrange(0, 0) =~= Seq::<char>::empty());
    assert(levels(pieces@) + seq![topic@.subrange(0, 0)] =~= split_topic(topic@.subrange(0, 0)));
    while i < n
        invariant
            n == topic@.len(),
            start <= i <= n,
            split_topic(topic@.subrange(0, i as int)) == levels(pieces@) + seq![topic@.subrange(start as int, i as int)],
        decreases n - i,
    {
        let c = topic.get_char(i);
        let ghost before = topic@.subrange(0, i as int);
        let ghost after = topic@.subrange(0, i + 1);
        assert(after.drop_last() =~= before);
        assert(after.last() == c);
        if c == '/' {
            let piece = topic.substring_char(start, i);
            let ghost old_pieces = pieces@;
            pieces.push(piece);
            proof {
                assert(levels(pieces@) =~= levels(old_pieces).push(piece@));
                assert(split_topic(after) == split_topic(before).push(Seq::<char>::empty()));
                assert(topic@.subrange(i + 1, i + 1) =~= Seq::<char>::empty());
                assert(levels(old_pieces) + seq![piece@] =~= levels(pieces@));
                assert(split_topic(after) =~= levels(pieces@) + seq![topic@.subrange(i + 1, i + 1)]);
            }
            start = i + 1;
        } else {
            proof {
                lemma_split_topic_nonempty(before);
                let rest = split_topic(before);
                assert(rest.last() == topic@.subrange(start as int, i as int));
                assert(topic@.subrange(start as int, i + 1) =~= topic@.subrange(start as int, i as int).push(c));
                assert(split_topic(after) =~= levels(pieces@) + seq![topic@.subrange(start as int, i + 1)]);
            }
        }
        i = i + 1;
    }
    let last = topic.substring_char(start, n);
    let ghost old_pieces = pieces@;
    pieces.push(last);
    assert(levels(pieces@) =~= levels(old_pieces).push(last@));
    assert(topic@.subrange(0, n as int) =~= topic@);
    pieces
}

/// The broker's subscription state: which clients subscribed to which topic filters.
pub struct MessageQueue {
    pub subscriptions: TopicTree,
}

impl MessageQueue {
    /// A queue without subscriptions.
    pub fn new() -> (queue: MessageQueue)
        ensures
            queue.subscriptions.subscriptions() == Seq::<(Seq<Seq<char>>, ClientHandle)>::empty(),
    {
        MessageQueue { subscriptions: TopicTree::new() }
    }

    /// The subscribers that a message published on `topic` reaches.
    pub fn get_subscribers<'a>(&'a self, topic: &str) -> (subscribers: Vec<&'a ClientHandle>)
        ensures
            handles(subscribers@) == matching_clients(self.subscriptions.subscriptions(), split_topic(topic@)),
    {
        let mut subscribers: Vec<&'a ClientHandle> = Vec::new();
        let topic_nodes = split_levels(topic);
        self.subscriptions.get_subscribers(topic_nodes.as_slice(), &mut subscribers);
        assert(handles(Seq::<&ClientHandle>::empty()) =~= Seq::<ClientHandle>::empty());
        assert(Seq::<ClientHandle>::empty() + matching_clients(self.subscriptions.subscriptions(), split_topic(topic@))
            =~= matching_clients(self.subscriptions.subscriptions(), split_topic(topic@)));
        subscribers
    }

    /// Subscribes `client` to the topic filter `topic`.
    pub fn handle_subscribe(&mut self, client: ClientHandle, topic: String)
        ensures
            reach_grows_by(old(self).subscriptions.subscriptions(), final(self).subscriptions.subscriptions(), client, split_topic(topic@)),
            stored_at(old(self).subscriptions, final(self).subscriptions, client, split_topic(topic@)),
    {
        let topic_nodes = split_levels(topic.as_str());
        self.subscriptions.subscribe(client, topic_nodes.as_slice());
    }

    /// The deliveries of `msg`, published by `sender` on `topic`: for each
    /// subscriber that the topic reaches, in order, the subscriber with the
    /// packet and the publisher to hand it through `ClientHandle::publish`.
    pub fn handle_publish<'a>(&'a self, topic: String, msg: PublishPacket, sender: ClientHandle)
        -> (deliveries: Vec<(&'a ClientHandle, PublishPacket, ClientHandle)>)
        ensures
            delivery_targets(deliveries@) == matching_clients(self.subscriptions.subscriptions(), split_topic(topic@)),
            forall|i: int| 0 <= i < deliveries@.len() ==> {
                &&& (#[trigger] deliveries@[i]).1@ == msg@
                &&& deliveries@[i].2 == sender
            },
    {
        let subscribers = self.get_subscribers(topic.as_str());
        let mut deliveries: Vec<(&'a ClientHandle, PublishPacket, ClientHandle)> = Vec::new();
        let mut i: usize = 0;
        while i < subscribers.len()
            invariant
                i <= subscribers@.len(),
                delivery_targets(deliveries@) == handles(subscribers@).take(i as int),
                forall|j: int| 0 <= j < deliveries@.len() ==> {
                    &&& (#[trigger] deliveries@[j]).1@ == msg@
                    &&& deliveries@[j].2 == sender
                },
            decreases subscribers@.len() - i,
        {
            let ghost before = deliveries@;
            deliveries.push((subscribers[i], msg.clone(), sender.clone()));
            assert(delivery_targets(deliveries@) =~= delivery_targets(before).push(*subscribers@[i as int]));
            assert(handles(subscribers@).take(i + 1) =~= handles(subscribers@).take(i as int).push(*subscribers@[i as int]));
            i = i + 1;
        }
        assert(handles(subscribers@).take(i as int) =~= handles(subscribers@));
        deliveries
    }
}

} // verus!
