use vstd::prelude::*;

use crate::message::Message;
use crate::queue_group::{
    bumped, bumped_by, lemma_bumped_by_step, lemma_round_robin_covers, lemma_round_robin_exactly_once,
    QueueGroupSelector,
};
use crate::registry::SubscriptionRegistry;
use crate::seqs::{count_of, lemma_count_of_positive};
use crate::subscription::{SubscriptionId, SubscriptionSender};
use crate::topic::{full_wildcard_token, lemma_subject_error_iff_invalid, split_dots};
use crate::trie::{is_pattern_key, pattern_matches};

verus! {

/// Result of routing a single message.
#[derive(Debug, Default)]
pub struct RoutingResult {
    pub matched: usize,
    pub delivered: usize,
    pub dropped: usize,
}

/// The matched ids that still have a subscription, in order, each as the id
/// its sender tags messages with and its queue group.
pub open spec fn routed(
    subs: Map<u64, (Seq<char>, Option<Seq<char>>, u64)>,
    m: Seq<SubscriptionId>,
) -> Seq<(u64, Option<Seq<char>>)>
    decreases m.len(),
{
    if m.len() == 0 {
        Seq::empty()
    } else {
        let r = routed(subs, m.drop_last());
        let k = m.last().0;
        if subs.contains_key(k) {
            r.push((subs[k].2, subs[k].1))
        } else {
            r
        }
    }
}

/// The routed subscriptions outside any queue group, in order.
pub open spec fn direct_targets(v: Seq<(u64, Option<Seq<char>>)>) -> Seq<u64>
    decreases v.len(),
{
    if v.len() == 0 {
        Seq::empty()
    } else {
        let d = direct_targets(v.drop_last());
        if v.last().1 is None {
            d.push(v.last().0)
        } else {
            d
        }
    }
}

/// The position of the group called `name` in `g`, or -1.
pub open spec fn group_index(g: Seq<(Seq<char>, Seq<u64>)>, name: Seq<char>) -> int
    decreases g.len(),
{
    if g.len() == 0 {
        -1
    } else if g[0].0 == name {
        0
    } else {
        let r = group_index(g.drop_first(), name);
        if r < 0 {
            -1
        } else {
            r + 1
        }
    }
}

/// `g` with `id` added as the last member of group `name`, which is added at
/// the end when it is not there yet.
pub open spec fn add_member(g: Seq<(Seq<char>, Seq<u64>)>, name: Seq<char>, id: u64) -> Seq<
    (Seq<char>, Seq<u64>),
> {
    let i = group_index(g, name);
    if i >= 0 {
        g.update(i, (name, g[i].1.push(id)))
    } else {
        g.push((name, seq![id]))
    }
}

/// The queue groups among the routed subscriptions, in order of first
/// appearance, each with its members in order.
pub open spec fn queue_groups(v: Seq<(u64, Option<Seq<char>>)>) -> Seq<(Seq<char>, Seq<u64>)>
    decreases v.len(),
{
    if v.len() == 0 {
        Seq::empty()
    } else {
        let g = queue_groups(v.drop_last());
        match v.last().1 {
            Some(name) => add_member(g, name, v.last().0),
            None => g,
        }
    }
}

/// The member each queue group delivers to when group `name`'s round-robin
/// counter stands at `counters(name)`: the member at that counter modulo the
/// group's size.
pub open spec fn group_choices(
    g: Seq<(Seq<char>, Seq<u64>)>,
    counters: spec_fn(Seq<char>) -> usize,
) -> Seq<u64> {
    Seq::new(g.len(), |k: int| g[k].1[(counters(g[k].0) as int) % (g[k].1.len() as int)])
}

/// Whether one of the groups `g` is called `name`.
pub open spec fn in_groups(g: Seq<(Seq<char>, Seq<u64>)>, name: Seq<char>) -> bool {
    exists|k: int| 0 <= k < g.len() && (#[trigger] g[k]).0 == name
}

/// The group counters after the groups `g` each delivered once: each of
/// their counters moved on by one, every other counter unchanged.
pub open spec fn advanced(
    counters: spec_fn(Seq<char>) -> usize,
    g: Seq<(Seq<char>, Seq<u64>)>,
    name: Seq<char>,
) -> usize {
    if in_groups(g, name) {
        bumped(counters(name))
    } else {
        counters(name)
    }
}

/// Who receives a message whose matching subscription ids are `m`: every
/// direct subscriber in order, then one member per queue group.
pub open spec fn delivery_targets(
    subs: Map<u64, (Seq<char>, Option<Seq<char>>, u64)>,
    m: Seq<SubscriptionId>,
    counters: spec_fn(Seq<char>) -> usize,
) -> Seq<u64> {
    let v = routed(subs, m);
    direct_targets(v) + group_choices(queue_groups(v), counters)
}

pub open spec fn groups_nonempty(g: Seq<(Seq<char>, Seq<u64>)>) -> bool {
    forall|k: int| 0 <= k < g.len() ==> (#[trigger] g[k]).1.len() > 0
}

proof fn lemma_group_index_found(g: Seq<(Seq<char>, Seq<u64>)>, name: Seq<char>, i: int)
    requires
        0 <= i < g.len(),
        g[i].0 == name,
        forall|k: int| 0 <= k < i ==> (#[trigger] g[k]).0 != name,
    ensures
        group_index(g, name) == i,
    decreases i,
{
    if i > 0 {
        assert forall|k: int| 0 <= k < i - 1 implies (#[trigger] g.drop_first()[k]).0 != name by {
            assert(g.drop_first()[k] == g[k + 1]);
        }
        lemma_group_index_found(g.drop_first(), name, i - 1);
    }
}

proof fn lemma_group_index_absent(g: Seq<(Seq<char>, Seq<u64>)>, name: Seq<char>)
    requires
        forall|k: int| 0 <= k < g.len() ==> (#[trigger] g[k]).0 != name,
    ensures
        group_index(g, name) == -1,
    decreases g.len(),
{
    if g.len() > 0 {
        assert forall|k: int| 0 <= k < g.len() - 1 implies (#[trigger] g.drop_first()[k]).0 != name by {
            assert(g.drop_first()[k] == g[k + 1]);
        }
        lemma_group_index_absent(g.drop_first(), name);
    }
}

proof fn lemma_queue_groups_nonempty(v: Seq<(u64, Option<Seq<char>>)>)
    ensures
        groups_nonempty(queue_groups(v)),
    decreases v.len(),
{
    if v.len() > 0 {
        lemma_queue_groups_nonempty(v.drop_last());
        let g = queue_groups(v.drop_last());
        if let Some(name) = v.last().1 {
            let i = group_index(g, name);
            lemma_group_index_range(g, name);
            if i >= 0 {
                let g2 = g.update(i, (name, g[i].1.push(v.last().0)));
                assert forall|k: int| 0 <= k < g2.len() implies (#[trigger] g2[k]).1.len() > 0 by {
                    if k != i {
                        assert(g2[k] == g[k]);
                    }
                }
            } else {
                let g2 = g.push((name, seq![v.last().0]));
                assert forall|k: int| 0 <= k < g2.len() implies (#[trigger] g2[k]).1.len() > 0 by {
                    if k < g.len() {
                        assert(g2[k] == g[k]);
                    }
                }
            }
        }
    }
}

proof fn lemma_group_index_range(g: Seq<(Seq<char>, Seq<u64>)>, name: Seq<char>)
    ensures
        -1 <= group_index(g, name) < g.len(),
        group_index(g, name) >= 0 ==> g[group_index(g, name)].0 == name,
    decreases g.len(),
{
    if g.len() > 0 && g[0].0 != name {
        lemma_group_index_range(g.drop_first(), name);
    }
}

/// The ids of the senders in `v`.
pub open spec fn sender_ids(v: Seq<SubscriptionSender>) -> Seq<u64> {
    v.map_values(|s: SubscriptionSender| s.id().0)
}

/// The exec queue groups seen as names and member ids.
spec fn groups_view(g: Seq<(String, Vec<SubscriptionSender>)>) -> Seq<(Seq<char>, Seq<u64>)> {
    g.map_values(|e: (String, Vec<SubscriptionSender>)| (e.0@, sender_ids(e.1@)))
}

proof fn lemma_add_member_names(g: Seq<(Seq<char>, Seq<u64>)>, name: Seq<char>, id: u64)
    requires
        forall|a: int, b: int| 0 <= a < b < g.len() ==> (#[trigger] g[a]).0 != (#[trigger] g[b]).0,
    ensures
        ({
            let h = add_member(g, name, id);
            &&& forall|a: int, b: int|
                0 <= a < b < h.len() ==> (#[trigger] h[a]).0 != (#[trigger] h[b]).0
            &&& exists|k: int| 0 <= k < h.len() && (#[trigger] h[k]).0 == name && h[k].1.contains(id)
            &&& forall|k: int, x: u64|
                0 <= k < g.len() && #[trigger] g[k].1.contains(x) ==> h[k].1.contains(x)
        }),
{
    let h = add_member(g, name, id);
    lemma_group_index_range(g, name);
    let i = group_index(g, name);
    if i >= 0 {
        assert(h[i].1 == g[i].1.push(id));
        assert(h[i].1[g[i].1.len() as int] == id);
        assert forall|k: int, x: u64| 0 <= k < g.len() && #[trigger] g[k].1.contains(x) implies h[k].1.contains(x) by {
            if k == i {
                let j = choose|j: int| 0 <= j < g[k].1.len() && g[k].1[j] == x;
                assert(h[k].1[j] == x);
            }
        }
    } else {
        assert forall|k: int| 0 <= k < g.len() implies (#[trigger] g[k]).0 != name by {
            if g[k].0 == name {
                lemma_group_index_first_bound(g, name, k);
            }
        }
        assert(h[g.len() as int].1[0] == id);
        assert forall|k: int, x: u64| 0 <= k < g.len() && #[trigger] g[k].1.contains(x) implies h[k].1.contains(x) by {
            assert(h[k] == g[k]);
        }
    }
}

proof fn lemma_group_index_first_bound(g: Seq<(Seq<char>, Seq<u64>)>, name: Seq<char>, k: int)
    requires
        0 <= k < g.len(),
        g[k].0 == name,
    ensures
        0 <= group_index(g, name) <= k,
    decreases k,
{
    if k > 0 && g[0].0 != name {
        assert(g.drop_first()[k - 1] == g[k]);
        lemma_group_index_first_bound(g.drop_first(), name, k - 1);
    }
}

/// Each queue group appears once, with every routed member of it: distinct
/// names, and each routed id with group `name` is a member of the group named
/// `name`.
pub proof fn lemma_queue_groups_partition(v: Seq<(u64, Option<Seq<char>>)>)
    ensures
        ({
            let g = queue_groups(v);
            &&& forall|a: int, b: int|
                0 <= a < b < g.len() ==> (#[trigger] g[a]).0 != (#[trigger] g[b]).0
            &&& forall|j: int|
                0 <= j < v.len() && (#[trigger] v[j]).1 is Some ==> exists|k: int|
                    0 <= k < g.len() && g[k].0 == v[j].1->0 && #[trigger] g[k].1.contains(v[j].0)
        }),
    decreases v.len(),
{
    if v.len() > 0 {
        let p = v.drop_last();
        lemma_queue_groups_partition(p);
        let g0 = queue_groups(p);
        let g = queue_groups(v);
        if let Some(name) = v.last().1 {
            lemma_add_member_names(g0, name, v.last().0);
        }
        assert forall|j: int| 0 <= j < v.len() && (#[trigger] v[j]).1 is Some implies exists|k: int|
            0 <= k < g.len() && g[k].0 == v[j].1->0 && #[trigger] g[k].1.contains(v[j].0) by {
            if j < v.len() - 1 {
                assert(p[j] == v[j]);
                let k = choose|k: int| 0 <= k < g0.len() && g0[k].0 == p[j].1->0 && #[trigger] g0[k].1.contains(p[j].0);
                if let Some(name) = v.last().1 {
                    lemma_group_index_range(g0, name);
                    assert(g[k].0 == g0[k].0);
                    assert(g[k].1.contains(v[j].0));
                } else {
                    assert(g[k] == g0[k]);
                }
            } else {
                assert(v[j] == v.last());
            }
        }
    }
}

/// Each queue group delivers exactly once, to one of its own members, and
/// every direct subscriber is delivered to: the targets are the direct
/// subscribers followed by one member per group.
pub proof fn lemma_one_delivery_per_group(
    v: Seq<(u64, Option<Seq<char>>)>,
    counters: spec_fn(Seq<char>) -> usize,
)
    ensures
        ({
            let g = queue_groups(v);
            let c = group_choices(g, counters);
            &&& c.len() == g.len()
            &&& forall|k: int| 0 <= k < g.len() ==> (#[trigger] g[k]).1.contains(c[k])
        }),
{
    let g = queue_groups(v);
    let c = group_choices(g, counters);
    lemma_queue_groups_nonempty(v);
    assert forall|k: int| 0 <= k < g.len() implies (#[trigger] g[k]).1.contains(c[k]) by {
        let n = g[k].1.len() as int;
        let j = (counters(g[k].0) as int) % n;
        assert(0 <= j < n);
        assert(g[k].1[j] == c[k]);
    }
}

/// An id with an entry in `subs` that occurs in `m` is routed as its entry's
/// tag and queue group.
proof fn lemma_routed_contains(
    subs: Map<u64, (Seq<char>, Option<Seq<char>>, u64)>,
    m: Seq<SubscriptionId>,
    k: u64,
)
    requires
        m.contains(SubscriptionId(k)),
        subs.contains_key(k),
    ensures
        routed(subs, m).contains((subs[k].2, subs[k].1)),
    decreases m.len(),
{
    let r = routed(subs, m.drop_last());
    if m.last() == SubscriptionId(k) {
        assert(routed(subs, m) == r.push((subs[k].2, subs[k].1)));
        assert(routed(subs, m)[r.len() as int] == (subs[k].2, subs[k].1));
    } else {
        let i = choose|i: int| 0 <= i < m.len() && m[i] == SubscriptionId(k);
        assert(m.drop_last()[i] == SubscriptionId(k));
        lemma_routed_contains(subs, m.drop_last(), k);
        let j = choose|j: int| 0 <= j < r.len() && r[j] == (subs[k].2, subs[k].1);
        if subs.contains_key(m.last().0) {
            assert(routed(subs, m)[j] == r[j]);
        }
    }
}

/// A routed subscription outside any queue group is a direct target.
proof fn lemma_direct_targets_contains(v: Seq<(u64, Option<Seq<char>>)>, x: u64)
    requires
        v.contains((x, None::<Seq<char>>)),
    ensures
        direct_targets(v).contains(x),
    decreases v.len(),
{
    let d = direct_targets(v.drop_last());
    if v.last() == (x, None::<Seq<char>>) {
        assert(direct_targets(v)[d.len() as int] == x);
    } else {
        let i = choose|i: int| 0 <= i < v.len() && v[i] == (x, None::<Seq<char>>);
        assert(v.drop_last()[i] == v[i]);
        lemma_direct_targets_contains(v.drop_last(), x);
        let j = choose|j: int| 0 <= j < d.len() && d[j] == x;
        assert(direct_targets(v)[j] == x);
    }
}

/// What a publish delivers to. Take any listing `m` of the registrations
/// matching the topic (each id as often as its patterns match, as `match_topic`
/// returns them) and any group counters: every subscription whose subject matches the
/// topic is reached. Outside a queue group it is itself a delivery target; in a
/// queue group, its group is among the queue groups, and that group delivers
/// to one of its own members.
pub proof fn lemma_matching_subscription_delivered(
    registry: SubscriptionRegistry,
    topic: Seq<char>,
    m: Seq<SubscriptionId>,
    counters: spec_fn(Seq<char>) -> usize,
    id: u64,
)
    requires
        registry.well_formed(),
        forall|s: SubscriptionId|
            #[trigger] count_of(m, s) == registry.topics().match_count(split_dots(topic), s),
        registry.subscriptions().contains_key(id),
        pattern_matches(split_dots(registry.subscriptions()[id].0), split_dots(topic)),
    ensures
        ({
            let subs = registry.subscriptions();
            let targets = delivery_targets(subs, m, counters);
            let g = queue_groups(routed(subs, m));
            let c = group_choices(g, counters);
            &&& subs[id].1 is None ==> targets.contains(id)
            &&& subs[id].1 is Some ==> exists|k: int|
                0 <= k < g.len() && g[k].0 == subs[id].1->0 && g[k].1.contains(id)
                    && g[k].1.contains(c[k]) && #[trigger] targets.contains(c[k])
        }),
{
    let subs = registry.subscriptions();
    let p = split_dots(subs[id].0);
    let t = split_dots(topic);
    let sid = SubscriptionId(id);
    registry.lemma_subscription_registered(id);
    lemma_subject_error_iff_invalid(subs[id].0);
    assert(is_pattern_key(p)) by {
        assert forall|i: int| 0 <= i < p.len() - 1 implies #[trigger] p[i] != full_wildcard_token() by {
            if p[i] == full_wildcard_token() {
                assert(i == p.len() - 1);
            }
        }
    }
    registry.topics().lemma_matching_registration_counted(p, t, sid);
    assert(count_of(m, sid) >= 1);
    lemma_count_of_positive(m, sid);
    lemma_routed_contains(subs, m, id);
    let v = routed(subs, m);
    let d = direct_targets(v);
    let g = queue_groups(v);
    let c = group_choices(g, counters);
    let targets = delivery_targets(subs, m, counters);
    assert(targets == d + c);
    if subs[id].1 is None {
        lemma_direct_targets_contains(v, id);
        let j = choose|j: int| 0 <= j < d.len() && d[j] == id;
        assert(targets[j] == id);
    } else {
        let j = choose|j: int| 0 <= j < v.len() && v[j] == (subs[id].2, subs[id].1);
        lemma_queue_groups_partition(v);
        lemma_one_delivery_per_group(v, counters);
        assert(v[j].1 is Some);
        let k = choose|k: int| 0 <= k < g.len() && g[k].0 == v[j].1->0 && #[trigger] g[k].1.contains(v[j].0);
        assert(g[k].1.contains(c[k]));
        assert(targets[d.len() + k] == c[k]);
        assert(targets.contains(c[k]));
    }
}

/// Every routed entry comes from an id of `m` with an entry in `subs`.
proof fn lemma_routed_from(
    subs: Map<u64, (Seq<char>, Option<Seq<char>>, u64)>,
    m: Seq<SubscriptionId>,
    e: (u64, Option<Seq<char>>),
)
    requires
        routed(subs, m).contains(e),
    ensures
        exists|k: u64|
            m.contains(SubscriptionId(k)) && subs.contains_key(k) && e == (
                #[trigger] subs[k].2,
                subs[k].1,
            ),
    decreases m.len(),
{
    let r = routed(subs, m.drop_last());
    let k = m.last().0;
    let i = choose|i: int| 0 <= i < routed(subs, m).len() && routed(subs, m)[i] == e;
    if subs.contains_key(k) && i == r.len() {
        assert(m[m.len() - 1] == SubscriptionId(k));
        assert(e == (subs[k].2, subs[k].1));
    } else {
        assert(r[i] == e);
        lemma_routed_from(subs, m.drop_last(), e);
        let k2 = choose|k2: u64|
            m.drop_last().contains(SubscriptionId(k2)) && subs.contains_key(k2) && e == (
                #[trigger] subs[k2].2,
                subs[k2].1,
            );
        let j = choose|j: int| 0 <= j < m.drop_last().len() && m.drop_last()[j] == SubscriptionId(k2);
        assert(m[j] == SubscriptionId(k2));
    }
}

/// Every direct target is the id of some routed entry.
proof fn lemma_direct_targets_from(v: Seq<(u64, Option<Seq<char>>)>, x: u64)
    requires
        direct_targets(v).contains(x),
    ensures
        exists|j: int| 0 <= j < v.len() && (#[trigger] v[j]).0 == x,
    decreases v.len(),
{
    let d = direct_targets(v.drop_last());
    let i = choose|i: int| 0 <= i < direct_targets(v).len() && direct_targets(v)[i] == x;
    if v.last().1 is None && i == d.len() {
        assert(v[v.len() - 1].0 == x);
    } else {
        assert(d[i] == x);
        lemma_direct_targets_from(v.drop_last(), x);
        let j = choose|j: int| 0 <= j < v.drop_last().len() && (#[trigger] v.drop_last()[j]).0 == x;
        assert(v[j] == v.drop_last()[j]);
    }
}

/// Every member of a queue group is the id of some routed entry.
proof fn lemma_group_members_from(v: Seq<(u64, Option<Seq<char>>)>)
    ensures
        forall|k: int, x: u64|
            0 <= k < queue_groups(v).len() && #[trigger] queue_groups(v)[k].1.contains(x) ==> exists|j: int|
                0 <= j < v.len() && (#[trigger] v[j]).0 == x,
    decreases v.len(),
{
    if v.len() > 0 {
        let p = v.drop_last();
        let g0 = queue_groups(p);
        let g = queue_groups(v);
        lemma_group_members_from(p);
        assert forall|k: int, x: u64|
            0 <= k < g.len() && #[trigger] g[k].1.contains(x) implies exists|j: int|
                0 <= j < v.len() && (#[trigger] v[j]).0 == x by {
            let last = v[v.len() - 1];
            let from_prev = 0 <= k < g0.len() && g0[k].1.contains(x);
            if from_prev {
                let j = choose|j: int| 0 <= j < p.len() && (#[trigger] p[j]).0 == x;
                assert(v[j] == p[j]);
            } else {
                match v.last().1 {
                    Some(name) => {
                        let i = group_index(g0, name);
                        lemma_group_index_range(g0, name);
                        if i >= 0 {
                            assert(g == g0.update(i, (name, g0[i].1.push(v.last().0))));
                            if k != i {
                                assert(g[k] == g0[k]);
                            } else {
                                let q = choose|q: int| 0 <= q < g[k].1.len() && g[k].1[q] == x;
                                if q < g0[i].1.len() {
                                    assert(g0[i].1[q] == x);
                                }
                                assert(x == v.last().0);
                            }
                        } else {
                            assert(g == g0.push((name, seq![v.last().0])));
                            if k < g0.len() {
                                assert(g[k] == g0[k]);
                            } else {
                                assert(g[k].1 == seq![v.last().0]);
                                assert(x == v.last().0);
                            }
                        }
                    },
                    None => {
                        assert(g == g0);
                    },
                }
                assert(v[v.len() - 1].0 == x);
            }
        }
    }
}

/// Messages go only to matching subscribers. Take any listing `m` of the
/// registrations matching the topic and any group counters: every delivery target is
/// a current subscription, registered under some pattern that matches the
/// topic.
pub proof fn lemma_delivered_only_to_matching(
    registry: SubscriptionRegistry,
    topic: Seq<char>,
    m: Seq<SubscriptionId>,
    counters: spec_fn(Seq<char>) -> usize,
    x: u64,
)
    requires
        registry.well_formed(),
        forall|s: SubscriptionId|
            #[trigger] count_of(m, s) == registry.topics().match_count(split_dots(topic), s),
        delivery_targets(registry.subscriptions(), m, counters).contains(x),
    ensures
        registry.subscriptions().contains_key(x),
        registry.topics().match_count(split_dots(topic), SubscriptionId(x)) >= 1,
        exists|p: Seq<Seq<char>>|
            is_pattern_key(p) && pattern_matches(p, split_dots(topic))
                && #[trigger] registry.topics().count(p, SubscriptionId(x)) > 0,
{
    let subs = registry.subscriptions();
    let v = routed(subs, m);
    let d = direct_targets(v);
    let g = queue_groups(v);
    let c = group_choices(g, counters);
    let targets = delivery_targets(subs, m, counters);
    assert(targets == d + c);
    let i = choose|i: int| 0 <= i < targets.len() && targets[i] == x;
    if i < d.len() {
        assert(d[i] == x);
        lemma_direct_targets_from(v, x);
    } else {
        let k = i - d.len();
        assert(c[k] == x);
        lemma_one_delivery_per_group(v, counters);
        assert(g[k].1.contains(x));
        lemma_group_members_from(v);
    }
    let j = choose|j: int| 0 <= j < v.len() && (#[trigger] v[j]).0 == x;
    lemma_routed_from(subs, m, v[j]);
    let k = choose|k: u64| m.contains(SubscriptionId(k)) && subs.contains_key(k) && v[j] == (
        #[trigger] subs[k].2,
        subs[k].1,
    );
    registry.lemma_subscription_registered(k);
    assert(k == x);
    lemma_count_of_positive(m, SubscriptionId(x));
    registry.topics().lemma_match_has_matching_registration(split_dots(topic), SubscriptionId(x));
}

proof fn lemma_counters_step(cs: Seq<spec_fn(Seq<char>) -> usize>, name: Seq<char>, i: int)
    requires
        0 <= i < cs.len(),
        forall|j: int| 0 < j < cs.len() ==> #[trigger] cs[j](name) == bumped(cs[j - 1](name)),
    ensures
        cs[i](name) == bumped_by(cs[0](name), i as nat),
    decreases i,
{
    if i == 0 {
        lemma_bumped_by_step(cs[0](name), 0);
    } else {
        lemma_counters_step(cs, name, i - 1);
        lemma_bumped_by_step(cs[0](name), (i - 1) as nat);
        assert(cs[i](name) == bumped(cs[i - 1](name)));
    }
}

/// Round robin per queue group. Let `cs[i]` be the group counters at the
/// `i`-th of `n` routes that reach group `name` with its `n` members listed
/// in the same order: each such route moves that group's counter on by one
/// (as `route` ensures) and no other route moves it, so `cs[i](name)` follows
/// `cs[i - 1](name)` by one. The member picked at route `i` is the one at
/// `cs[i](name)` modulo `n`, and these positions are pairwise different: each
/// member receives exactly one of the `n` messages, unless the counter wraps
/// on the way at a group size that does not divide its range.
pub proof fn lemma_group_rotation(
    cs: Seq<spec_fn(Seq<char>) -> usize>,
    name: Seq<char>,
    n: nat,
    i1: int,
    i2: int,
)
    requires
        cs.len() == n,
        n > 0,
        forall|j: int| 0 < j < cs.len() ==> #[trigger] cs[j](name) == bumped(cs[j - 1](name)),
        cs[0](name) as nat + n <= usize::MAX as nat + 1 || (usize::MAX as nat + 1) % n == 0,
        0 <= i1 < n,
        0 <= i2 < n,
        i1 != i2,
    ensures
        (cs[i1](name) as int) % (n as int) != (cs[i2](name) as int) % (n as int),
{
    lemma_counters_step(cs, name, i1);
    lemma_counters_step(cs, name, i2);
    lemma_round_robin_exactly_once(cs[0](name), n, i1 as nat, i2 as nat);
}

/// Round robin per queue group, on what is delivered. Take `n` successive
/// routes that all list the same matching registrations `m` over the same
/// subscriptions `subs`, with `cs[i]` the group counters at the `i`-th: each
/// moves the counter of queue group `k` on by one (as `route` ensures) and
/// nothing else moves it. If that group's `n` members are distinct, the
/// message each route delivers to the group goes to one of its members, the
/// `n` messages go to `n` different members, and every member receives one,
/// unless the counter wraps on the way at a group size that does not divide
/// its range.
pub proof fn lemma_group_members_take_turns(
    subs: Map<u64, (Seq<char>, Option<Seq<char>>, u64)>,
    m: Seq<SubscriptionId>,
    cs: Seq<spec_fn(Seq<char>) -> usize>,
    k: int,
)
    requires
        0 <= k < queue_groups(routed(subs, m)).len(),
        cs.len() == queue_groups(routed(subs, m))[k].1.len(),
        forall|j: int|
            0 < j < cs.len() ==> #[trigger] cs[j](queue_groups(routed(subs, m))[k].0) == bumped(
                cs[j - 1](queue_groups(routed(subs, m))[k].0),
            ),
        queue_groups(routed(subs, m))[k].1.no_duplicates(),
        cs.len() > 0,
        cs[0](queue_groups(routed(subs, m))[k].0) as nat + cs.len() <= usize::MAX as nat + 1 || (
        usize::MAX as nat + 1) % (cs.len() as nat) == 0,
    ensures
        ({
            let g = queue_groups(routed(subs, m));
            let d = direct_targets(routed(subs, m)).len();
            let members = g[k].1;
            &&& forall|i: int|
                0 <= i < cs.len() ==> members.contains(
                    #[trigger] delivery_targets(subs, m, cs[i])[d + k],
                )
            &&& forall|i1: int, i2: int|
                0 <= i1 < cs.len() && 0 <= i2 < cs.len() && i1 != i2 ==> #[trigger] delivery_targets(
                    subs,
                    m,
                    cs[i1],
                )[d + k] != #[trigger] delivery_targets(subs, m, cs[i2])[d + k]
            &&& forall|idx: int|
                #![trigger members[idx]]
                0 <= idx < members.len() ==> exists|i: int|
                    #![trigger delivery_targets(subs, m, cs[i])]
                    0 <= i < cs.len() && delivery_targets(subs, m, cs[i])[d + k] == members[idx]
        }),
{
    let v = routed(subs, m);
    let g = queue_groups(v);
    let d = direct_targets(v).len();
    let name = g[k].0;
    let members = g[k].1;
    let n = members.len();
    let c0 = cs[0](name);
    assert forall|i: int| 0 <= i < cs.len() implies delivery_targets(subs, m, cs[i])[d + k] == members[
        (bumped_by(c0, i as nat) as int) % (n as int)] by {
        lemma_counters_step(cs, name, i);
        let t = delivery_targets(subs, m, cs[i]);
        assert(t == direct_targets(v) + group_choices(g, cs[i]));
        assert(t[d + k] == group_choices(g, cs[i])[k]);
    }
    assert forall|i: int| 0 <= i < cs.len() implies members.contains(
        #[trigger] delivery_targets(subs, m, cs[i])[d + k],
    ) by {
        let j = (bumped_by(c0, i as nat) as int) % (n as int);
        assert(0 <= j < n);
        assert(members[j] == delivery_targets(subs, m, cs[i])[d + k]);
    }
    assert forall|i1: int, i2: int|
        0 <= i1 < cs.len() && 0 <= i2 < cs.len() && i1 != i2 implies #[trigger] delivery_targets(
            subs,
            m,
            cs[i1],
        )[d + k] != #[trigger] delivery_targets(subs, m, cs[i2])[d + k] by {
        lemma_round_robin_exactly_once(c0, n, i1 as nat, i2 as nat);
        let j1 = (bumped_by(c0, i1 as nat) as int) % (n as int);
        let j2 = (bumped_by(c0, i2 as nat) as int) % (n as int);
        assert(0 <= j1 < n && 0 <= j2 < n);
        assert(members[j1] != members[j2]);
    }
    assert forall|idx: int|
        #![trigger members[idx]]
        0 <= idx < members.len() implies exists|i: int|
            #![trigger delivery_targets(subs, m, cs[i])]
            0 <= i < cs.len() && delivery_targets(subs, m, cs[i])[d + k] == members[idx] by {
        lemma_round_robin_covers(c0, n, idx as nat);
        let j = choose|j: nat| j < n && #[trigger] ((bumped_by(c0, j) as int) % (n as int)) == idx as int;
        assert(delivery_targets(subs, m, cs[j as int])[d + k] == members[idx]);
    }
}

/// The position of the group called `name` in `groups`, if any.
fn find_group(groups: &Vec<(String, Vec<SubscriptionSender>)>, name: &String) -> (r: Option<usize>)
    ensures
        match r {
            Some(j) => j < groups@.len() && group_index(groups_view(groups@), name@) == j,
            None => group_index(groups_view(groups@), name@) == -1,
        },
{
    let ghost gv = groups_view(groups@);
    let mut j: usize = 0;
    while j < groups.len()
        invariant
            j <= groups@.len(),
            gv == groups_view(groups@),
            forall|k: int| 0 <= k < j ==> (#[trigger] gv[k]).0 != name@,
        decreases groups@.len() - j,
    {
        if groups[j].0 == *name {
            proof {
                lemma_group_index_found(gv, name@, j as int);
            }
            return Some(j);
        }
        j = j + 1;
    }
    proof {
        lemma_group_index_absent(gv, name@);
    }
    None
}

/// One attempted send: the id of the sender tried, the message handed to
/// it (as its view), and whether the channel took it.
pub type Offer = (u64, (Seq<char>, Seq<u8>, Option<Seq<char>>), bool);

/// How many of the sends in `log` had outcome `sent`.
pub open spec fn sent_count(log: Seq<Offer>, sent: bool) -> nat
    decreases log.len(),
{
    if log.len() == 0 {
        0
    } else {
        sent_count(log.drop_last(), sent) + if log.last().2 == sent { 1nat } else { 0nat }
    }
}

/// `r` is what routing the message `msg` through `registry` reports, the
/// group counters going from `before` to `after` and the router's record of
/// sends from `log0` to `log1`. With `m` the listing of the matching
/// registrations that `match_topic` gives (each subscription id as often as
/// its patterns match): `matched` is its length; the message was handed once
/// to each planned target (every direct subscriber, then one member per
/// queue group), in that order and nothing else; `delivered` counts the
/// sends the channels took and `dropped` those they refused; and the counter
/// of each queue group reached moved on by one, every other staying as it
/// was.
pub open spec fn routed_as(
    registry: SubscriptionRegistry,
    msg: (Seq<char>, Seq<u8>, Option<Seq<char>>),
    before: spec_fn(Seq<char>) -> usize,
    after: spec_fn(Seq<char>) -> usize,
    log0: Seq<Offer>,
    log1: Seq<Offer>,
    r: RoutingResult,
) -> bool {
    let m = registry.topics().match_list(split_dots(msg.0));
    let targets = delivery_targets(registry.subscriptions(), m, before);
    let sends = log1.skip(log0.len() as int);
    &&& forall|s: SubscriptionId|
        #[trigger] count_of(m, s) == registry.topics().match_count(split_dots(msg.0), s)
    &&& r.matched == m.len()
    &&& log1.len() == log0.len() + targets.len()
    &&& log1.take(log0.len() as int) == log0
    &&& forall|k: int|
        0 <= k < targets.len() ==> (#[trigger] sends[k]).0 == targets[k] && sends[k].1 == msg
    &&& r.delivered == sent_count(sends, true)
    &&& r.dropped == sent_count(sends, false)
    &&& r.delivered + r.dropped == targets.len()
    &&& forall|name: Seq<char>|
        #[trigger] after(name) == advanced(before, queue_groups(routed(registry.subscriptions(), m)), name)
}

/// What a publish hands out. After a route of the message `msg` (as `route`
/// ensures), every send it added hands over `msg` unchanged (topic, payload
/// and reply subject) to a current subscription registered under a pattern
/// that matches the topic; every subscription outside a queue group whose
/// subject matches the topic is sent it; and each send is counted once, as
/// delivered or dropped.
pub proof fn lemma_route_hands_out_the_message(
    registry: SubscriptionRegistry,
    msg: (Seq<char>, Seq<u8>, Option<Seq<char>>),
    before: spec_fn(Seq<char>) -> usize,
    after: spec_fn(Seq<char>) -> usize,
    log0: Seq<Offer>,
    log1: Seq<Offer>,
    r: RoutingResult,
)
    requires
        registry.well_formed(),
        routed_as(registry, msg, before, after, log0, log1, r),
    ensures
        log1.len() >= log0.len(),
        log1.take(log0.len() as int) == log0,
        r.delivered + r.dropped == log1.len() - log0.len(),
        forall|k: int|
            log0.len() <= k < log1.len() ==> {
                &&& (#[trigger] log1[k]).1 == msg
                &&& registry.subscriptions().contains_key(log1[k].0)
                &&& registry.topics().match_count(split_dots(msg.0), SubscriptionId(log1[k].0)) >= 1
            },
        forall|id: u64|
            #[trigger] registry.subscriptions().contains_key(id) && registry.subscriptions()[id].1 is None
                && pattern_matches(split_dots(registry.subscriptions()[id].0), split_dots(msg.0))
                ==> exists|k: int| log0.len() <= k < log1.len() && (#[trigger] log1[k]).0 == id,
{
    let subs = registry.subscriptions();
    let m = registry.topics().match_list(split_dots(msg.0));
    let targets = delivery_targets(subs, m, before);
    let sends = log1.skip(log0.len() as int);
    assert forall|k: int| log0.len() <= k < log1.len() implies {
        &&& (#[trigger] log1[k]).1 == msg
        &&& registry.subscriptions().contains_key(log1[k].0)
        &&& registry.topics().match_count(split_dots(msg.0), SubscriptionId(log1[k].0)) >= 1
    } by {
        let q = k - log0.len();
        assert(sends[q] == log1[k]);
        assert(targets[q] == log1[k].0);
        lemma_delivered_only_to_matching(registry, msg.0, m, before, log1[k].0);
    }
    assert forall|id: u64|
        #[trigger] registry.subscriptions().contains_key(id) && registry.subscriptions()[id].1 is None
            && pattern_matches(split_dots(registry.subscriptions()[id].0), split_dots(msg.0))
            implies exists|k: int| log0.len() <= k < log1.len() && (#[trigger] log1[k]).0 == id by {
        lemma_matching_subscription_delivered(registry, msg.0, m, before, id);
        let q = choose|q: int| 0 <= q < targets.len() && targets[q] == id;
        assert(sends[q] == log1[log0.len() + q]);
        assert(log1[log0.len() + q].0 == id);
    }
}

/// The counter of the selector for group `name` among `v` (the last entry of
/// that name), or 0 when there is none.
spec fn selector_counter(v: Seq<(String, QueueGroupSelector)>, name: Seq<char>) -> usize
    decreases v.len(),
{
    if v.len() == 0 {
        0
    } else if v.last().0@ == name {
        v.last().1.counter()
    } else {
        selector_counter(v.drop_last(), name)
    }
}

proof fn lemma_selector_counter_push(v: Seq<(String, QueueGroupSelector)>, e: (String, QueueGroupSelector), name: Seq<char>)
    ensures
        selector_counter(v.push(e), name) == if e.0@ == name {
            e.1.counter()
        } else {
            selector_counter(v, name)
        },
{
    assert(v.push(e).drop_last() =~= v);
}

proof fn lemma_selector_counter_absent(v: Seq<(String, QueueGroupSelector)>, name: Seq<char>)
    requires
        forall|k: int| 0 <= k < v.len() ==> (#[trigger] v[k]).0@ != name,
    ensures
        selector_counter(v, name) == 0,
    decreases v.len(),
{
    if v.len() > 0 {
        assert(v.last() == v[v.len() - 1]);
        lemma_selector_counter_absent(v.drop_last(), name);
    }
}

/// Replacing the last entry called `v[j].0` by one of the same name changes
/// only that name's counter, to the new entry's.
proof fn lemma_selector_counter_update(
    v: Seq<(String, QueueGroupSelector)>,
    j: int,
    e: (String, QueueGroupSelector),
    name: Seq<char>,
)
    requires
        0 <= j < v.len(),
        e.0@ == v[j].0@,
        forall|k: int| j < k < v.len() ==> (#[trigger] v[k]).0@ != v[j].0@,
    ensures
        selector_counter(v.update(j, e), name) == if name == e.0@ {
            e.1.counter()
        } else {
            selector_counter(v, name)
        },
    decreases v.len(),
{
    let u = v.update(j, e);
    if j == v.len() - 1 {
        assert(u.drop_last() =~= v.drop_last());
        assert(u.last() == e);
    } else {
        assert(u.drop_last() =~= v.drop_last().update(j, e));
        assert(u.last() == v.last());
        assert(v.last() == v[v.len() - 1]);
        lemma_selector_counter_update(v.drop_last(), j, e, name);
    }
}

/// The position of the last selector for group `name`, if any.
fn find_selector(sels: &Vec<(String, QueueGroupSelector)>, name: &String) -> (r: Option<usize>)
    ensures
        match r {
            Some(j) => j < sels@.len() && sels@[j as int].0@ == name@ && forall|k: int|
                j < k < sels@.len() ==> (#[trigger] sels@[k]).0@ != name@,
            None => forall|k: int| 0 <= k < sels@.len() ==> (#[trigger] sels@[k]).0@ != name@,
        },
{
    let mut j: usize = sels.len();
    while j > 0
        invariant
            j <= sels@.len(),
            forall|k: int| j <= k < sels@.len() ==> (#[trigger] sels@[k]).0@ != name@,
        decreases j,
    {
        j = j - 1;
        if sels[j].0 == *name {
            return Some(j);
        }
    }
    None
}

/// Routes published messages to matching subscribers.
pub struct Router {
    /// One round-robin selector per queue group, by group name.
    selectors: Vec<(String, QueueGroupSelector)>,
    /// Every send attempted so far, in order.
    offers: Ghost<Seq<Offer>>,
}

impl Router {
    /// Each queue group's round-robin counter (0 for a group not seen yet).
    pub closed spec fn counters(&self) -> spec_fn(Seq<char>) -> usize {
        |name: Seq<char>| selector_counter(self.selectors@, name)
    }

    /// Every send this router has attempted, in order: the id of the sender
    /// tried, the message handed to it, and whether the channel took it.
    pub closed spec fn offers(&self) -> Seq<Offer> {
        self.offers@
    }

    pub fn new() -> (r: Router)
        ensures
            forall|name: Seq<char>| #[trigger] (r.counters())(name) == 0,
            r.offers() == Seq::<Offer>::empty(),
    {
        Router { selectors: Vec::new(), offers: Ghost(Seq::empty()) }
    }

    /// The senders a message goes to when `matching` are the subscription ids
    /// that match its topic: the direct subscribers in order, then one member
    /// of each queue group (groups in order of first appearance, each picking
    /// the member at its own counter modulo its size, and that counter moving
    /// on by one).
    pub fn plan_deliveries(
        &mut self,
        registry: &SubscriptionRegistry,
        matching: &Vec<SubscriptionId>,
    ) -> (targets: Vec<SubscriptionSender>)
        ensures
            sender_ids(targets@) == delivery_targets(
                registry.subscriptions(),
                matching@,
                old(self).counters(),
            ),
            forall|name: Seq<char>|
                #[trigger] (final(self).counters())(name) == advanced(
                    old(self).counters(),
                    queue_groups(routed(registry.subscriptions(), matching@)),
                    name,
                ),
            final(self).offers() == old(self).offers(),
    {
        let ghost offers0 = self.offers@;
        let ghost subs = registry.subscriptions();
        let mut direct: Vec<SubscriptionSender> = Vec::new();
        let mut groups: Vec<(String, Vec<SubscriptionSender>)> = Vec::new();
        let mut i: usize = 0;
        proof {
            assert(matching@.take(0) =~= Seq::<SubscriptionId>::empty());
            assert(sender_ids(direct@) =~= Seq::<u64>::empty());
            assert(groups_view(groups@) =~= Seq::<(Seq<char>, Seq<u64>)>::empty());
        }
        while i < matching.len()
            invariant
                i <= matching@.len(),
                subs == registry.subscriptions(),
                sender_ids(direct@) == direct_targets(routed(subs, matching@.take(i as int))),
                groups_view(groups@) == queue_groups(routed(subs, matching@.take(i as int))),
            decreases matching@.len() - i,
        {
            let ghost d0 = direct@;
            let ghost g0 = groups@;
            let ghost v_prev = routed(subs, matching@.take(i as int));
            let ghost key = matching@[i as int].0;
            proof {
                assert(matching@.take(i + 1).drop_last() =~= matching@.take(i as int));
                assert(matching@.take(i + 1).last() == matching@[i as int]);
                if subs.contains_key(key) {
                    let x = (subs[key].2, subs[key].1);
                    assert(routed(subs, matching@.take(i + 1)) == v_prev.push(x));
                    assert(v_prev.push(x).drop_last() =~= v_prev);
                    assert(v_prev.push(x).last() == x);
                } else {
                    assert(routed(subs, matching@.take(i + 1)) == v_prev);
                }
            }
            match registry.get_routing_info(matching[i]) {
                None => {},
                Some((sender, None)) => {
                    direct.push(sender);
                    proof {
                        assert(sender_ids(direct@) =~= sender_ids(d0).push(sender.id().0));
                    }
                },
                Some((sender, Some(name))) => {
                    let ghost id = sender.id().0;
                    match find_group(&groups, &name) {
                        Some(j) => {
                            let (gname, mut members) = groups.remove(j);
                            let ghost mem0 = members@;
                            members.push(sender);
                            proof {
                                assert(sender_ids(members@) =~= sender_ids(mem0).push(id));
                                lemma_group_index_range(groups_view(g0), name@);
                            }
                            groups.insert(j, (gname, members));
                            proof {
                                assert(groups@ =~= g0.update(j as int, (gname, members)));
                                assert(groups_view(groups@) =~= groups_view(g0).update(
                                    j as int,
                                    (name@, groups_view(g0)[j as int].1.push(id)),
                                ));
                            }
                        },
                        None => {
                            let members = vec![sender];
                            proof {
                                assert(sender_ids(members@) =~= seq![id]);
                            }
                            groups.push((name, members));
                            proof {
                                assert(groups_view(groups@) =~= groups_view(g0).push((name@, seq![id])));
                            }
                        },
                    }
                },
            }
            i = i + 1;
        }
        proof {
            assert(matching@.take(matching@.len() as int) =~= matching@);
        }
        let ghost v = routed(subs, matching@);
        let ghost gv = queue_groups(v);
        let ghost c0 = self.counters();
        proof {
            lemma_queue_groups_nonempty(v);
            lemma_queue_groups_partition(v);
            assert(group_choices(gv, c0).take(0) =~= Seq::<u64>::empty());
            assert(direct_targets(v) + Seq::<u64>::empty() =~= direct_targets(v));
        }
        let mut targets = direct;
        let mut k: usize = 0;
        while k < groups.len()
            invariant
                k <= groups@.len(),
                groups_view(groups@) == gv,
                groups_nonempty(gv),
                self.offers@ == offers0,
                forall|a: int, b: int| 0 <= a < b < gv.len() ==> (#[trigger] gv[a]).0 != (#[trigger] gv[b]).0,
                sender_ids(targets@) == direct_targets(v) + group_choices(gv, c0).take(k as int),
                forall|name: Seq<char>|
                    #[trigger] selector_counter(self.selectors@, name) == if exists|q: int|
                        0 <= q < k && (#[trigger] gv[q]).0 == name {
                        bumped(c0(name))
                    } else {
                        c0(name)
                    },
            decreases groups@.len() - k,
        {
            let ghost t0 = targets@;
            let ghost s0 = self.selectors@;
            let name = &groups[k].0;
            let members = &groups[k].1;
            let ghost nm = gv[k as int].0;
            proof {
                assert(gv[k as int].1 == sender_ids(members@));
                assert(gv[k as int].1.len() > 0);
                assert(name@ == nm);
                assert(!exists|q: int| 0 <= q < k && (#[trigger] gv[q]).0 == nm);
                assert(selector_counter(s0, nm) == c0(nm));
            }
            let idx = match find_selector(&self.selectors, name) {
                Some(j) => {
                    let (gname, mut sel) = self.selectors.remove(j);
                    proof {
                        lemma_selector_counter_update(s0, j as int, (gname, sel), nm);
                        assert(s0.update(j as int, (gname, sel)) =~= s0);
                        assert(sel.counter() == c0(nm));
                    }
                    let idx = sel.select_index(members.len());
                    self.selectors.insert(j, (gname, sel));
                    proof {
                        assert(self.selectors@ =~= s0.update(j as int, (gname, sel)));
                        assert forall|n: Seq<char>| #[trigger] selector_counter(self.selectors@, n)
                            == (if n == nm { bumped(c0(nm)) } else { selector_counter(s0, n) }) by {
                            lemma_selector_counter_update(s0, j as int, (gname, sel), n);
                        }
                    }
                    idx
                },
                None => {
                    let mut sel = QueueGroupSelector::new();
                    proof {
                        lemma_selector_counter_absent(s0, nm);
                    }
                    let idx = sel.select_index(members.len());
                    let gname = name.clone();
                    self.selectors.push((gname, sel));
                    proof {
                        assert forall|n: Seq<char>| #[trigger] selector_counter(self.selectors@, n)
                            == (if n == nm { bumped(c0(nm)) } else { selector_counter(s0, n) }) by {
                            lemma_selector_counter_push(s0, (gname, sel), n);
                        }
                    }
                    idx
                },
            };
            let chosen = members[idx].clone();
            targets.push(chosen);
            proof {
                assert(sender_ids(members@)[idx as int] == members@[idx as int].id().0);
                assert(group_choices(gv, c0)[k as int] == gv[k as int].1[(c0(nm) as int) % (gv[k as int].1.len() as int)]);
                assert(group_choices(gv, c0).take(k + 1) =~= group_choices(gv, c0).take(k as int).push(
                    group_choices(gv, c0)[k as int],
                ));
                assert(sender_ids(targets@) =~= sender_ids(t0).push(chosen.id().0));
                assert forall|n: Seq<char>|
                    #[trigger] selector_counter(self.selectors@, n) == if exists|q: int|
                        0 <= q < k + 1 && (#[trigger] gv[q]).0 == n {
                        bumped(c0(n))
                    } else {
                        c0(n)
                    } by {
                    if n == nm {
                        assert(gv[k as int].0 == n);
                    } else {
                        if exists|q: int| 0 <= q < k + 1 && (#[trigger] gv[q]).0 == n {
                            let q = choose|q: int| 0 <= q < k + 1 && (#[trigger] gv[q]).0 == n;
                            assert(q < k);
                        }
                    }
                }
            }
            k = k + 1;
        }
        proof {
            assert(group_choices(gv, c0).take(gv.len() as int) =~= group_choices(gv, c0));
            assert forall|name: Seq<char>|
                #[trigger] (self.counters())(name) == advanced(c0, gv, name) by {
                if in_groups(gv, name) {
                    let q = choose|q: int| 0 <= q < gv.len() && (#[trigger] gv[q]).0 == name;
                    assert(exists|q: int| 0 <= q < k && (#[trigger] gv[q]).0 == name);
                }
            }
        }
        targets
    }

    /// Hands `m` to `target`, which tags it with its id, without blocking,
    /// and records the send: the target's id, the message handed over, and
    /// whether the channel took it.
    fn offer(&mut self, target: &SubscriptionSender, m: Message) -> (sent: bool)
        ensures
            final(self).offers() == old(self).offers().push((target.id().0, m@, sent)),
            final(self).selectors == old(self).selectors,
    {
        let ghost mv = m@;
        let sent = target.try_send(m);
        proof {
            self.offers@ = self.offers@.push((target.id().0, mv, sent));
        }
        sent
    }

    /// Route a message to all matching subscribers.
    ///
    /// For queue groups, only one member per group receives the message.
    /// Uses `try_send` to avoid blocking -- drops messages for slow consumers.
    /// `matched` counts the matching registrations; each planned target is
    /// handed a copy of the message once (recorded in `offers`), and the send
    /// is counted as delivered when the channel took it, dropped otherwise.
    pub fn route(&mut self, registry: &SubscriptionRegistry, message: &Message) -> (r:
        RoutingResult)
        requires
            registry.well_formed(),
        ensures
            routed_as(
                *registry,
                message@,
                old(self).counters(),
                final(self).counters(),
                old(self).offers(),
                final(self).offers(),
                r,
            ),
    {
        let matching = registry.match_topic(&message.topic);
        let mut result = RoutingResult { matched: matching.len(), delivered: 0, dropped: 0 };
        let ghost o0 = self.offers@;
        let ghost c0 = self.counters();
        let targets = self.plan_deliveries(registry, &matching);
        let ghost c1 = self.counters();
        let ghost sels = self.selectors;
        let ghost tids = sender_ids(targets@);
        let ghost mut sends: Seq<Offer> = Seq::empty();
        let mut i: usize = 0;
        while i < targets.len()
            invariant
                i <= targets@.len(),
                tids == sender_ids(targets@),
                self.selectors == sels,
                result.matched == matching@.len(),
                self.offers@ == o0 + sends,
                sends.len() == i,
                forall|k: int| 0 <= k < i ==> (#[trigger] sends[k]).0 == tids[k] && sends[k].1 == message@,
                result.delivered == sent_count(sends, true),
                result.dropped == sent_count(sends, false),
                result.delivered + result.dropped == i,
            decreases targets@.len() - i,
        {
            let ghost before = self.offers@;
            let sent = self.offer(&targets[i], message.clone());
            proof {
                let e: Offer = self.offers@.last();
                let s0 = sends;
                sends = sends.push(e);
                assert(self.offers@ == before.push(e));
                assert(sends.drop_last() =~= s0);
                assert(self.offers@ =~= o0 + sends);
            }
            if sent {
                result.delivered = result.delivered + 1;
            } else {
                result.dropped = result.dropped + 1;
            }
            i = i + 1;
        }
        proof {
            assert(self.offers@.skip(o0.len() as int) =~= sends);
            assert(self.offers@.take(o0.len() as int) =~= o0);
            assert(message@.0 == message.topic@);
            let m = registry.topics().match_list(split_dots(message@.0));
            assert(matching@ == m);
            assert(tids == delivery_targets(registry.subscriptions(), m, c0));
            assert forall|name: Seq<char>| #[trigger] (self.counters())(name) == (c1)(name) by {
            }
            assert(result.matched == m.len());
        }
        result
    }
}

} // verus!
