use vstd::prelude::*;

use dashmap::DashMap;

use crate::seqs::count_of;
use crate::subscription::{SubscriptionId, SubscriptionSender};
use crate::topic::{split_dots, subject_error, Subject};
use crate::trie::{
    key_hit, lemma_pattern_key_is_key, pattern_key, pattern_matches, removal_hit, TopicTrie,
};

verus! {

/// Metadata for a registered subscription.
pub struct SubscriptionEntry {
    subject: Subject,
    queue_group: Option<String>,
    sender: SubscriptionSender,
}

/// The characters of an optional string.
pub open spec fn opt_string_view(o: Option<String>) -> Option<Seq<char>> {
    match o {
        Some(s) => Some(s@),
        None => None,
    }
}

/// An entry as plain values: subject, queue group, and the id its sender tags
/// messages with.
pub closed spec fn entry_view(e: SubscriptionEntry) -> (Seq<char>, Option<Seq<char>>, u64) {
    (e.subject@, opt_string_view(e.queue_group), e.sender.id().0)
}

/// `dashmap::DashMap`, a concurrent hash map.
#[verifier::external_type_specification]
#[verifier::external_body]
#[verifier::reject_recursive_types(K)]
#[verifier::reject_recursive_types(V)]
#[verifier::reject_recursive_types(S)]
pub struct ExDashMap<K, V, S>(DashMap<K, V, S>);

/// What a map of entries holds, keyed by subscription id, each entry taken
/// as `entry_view` gives it.
pub uninterp spec fn entry_map(m: DashMap<u64, SubscriptionEntry>) -> Map<u64, (Seq<char>, Option<Seq<char>>, u64)>;

/// Calls `DashMap::new`: an empty map.
#[verifier::external_body]
fn entries_new() -> (fresh: DashMap<u64, SubscriptionEntry>)
    ensures
        entry_map(fresh).dom() == Set::<u64>::empty(),
{
    DashMap::new()
}

/// Calls `DashMap::insert`: afterwards `key` maps to `value`, replacing any
/// earlier value; every other key keeps its value.
#[verifier::external_body]
fn entries_insert(m: &mut DashMap<u64, SubscriptionEntry>, key: u64, value: SubscriptionEntry)
    ensures
        entry_map(*final(m)) == entry_map(*old(m)).insert(key, entry_view(value)),
{
    m.insert(key, value);
}

/// Calls `DashMap::remove`: takes out the value under `key`, if any, and
/// returns it; every other key keeps its value.
#[verifier::external_body]
fn entries_remove(m: &mut DashMap<u64, SubscriptionEntry>, key: u64) -> (r: Option<
    SubscriptionEntry,
>)
    ensures
        entry_map(*final(m)) == entry_map(*old(m)).remove(key),
        r is Some <==> entry_map(*old(m)).contains_key(key),
        r matches Some(e) ==> entry_view(e) == entry_map(*old(m))[key],
{
    match m.remove(&key) {
        Some((_, e)) => Some(e),
        None => None,
    }
}

/// Calls `DashMap::get` and copies out the sender and the queue group of the
/// value under `key`, if any.
#[verifier::external_body]
fn entries_routing_info(m: &DashMap<u64, SubscriptionEntry>, key: u64) -> (r: Option<
    (SubscriptionSender, Option<String>),
>)
    ensures
        r is Some <==> entry_map(*m).contains_key(key),
        r matches Some(info) ==> info.0.id().0 == entry_map(*m)[key].2 && opt_string_view(info.1)
            == entry_map(*m)[key].1,
{
    match m.get(&key) {
        Some(e) => Some((e.sender.clone(), e.queue_group.clone())),
        None => None,
    }
}

/// Calls `DashMap::len`: the number of keys in the map.
#[verifier::external_body]
fn entries_len(m: &DashMap<u64, SubscriptionEntry>) -> (n: usize)
    ensures
        n == entry_map(*m).dom().len(),
{
    m.len()
}

/// Subscription registry.
///
/// Manages the topic trie and subscription state: the trie finds the ids whose
/// patterns match a topic, and the entries map each id to its subject, queue
/// group and sender.
pub struct SubscriptionRegistry {
    trie: TopicTrie,
    entries: DashMap<u64, SubscriptionEntry>,
    next_id: u64,
    /// Registrations left in the trie when an id that still had a
    /// subscription was subscribed again (its earlier subject's registration
    /// stays, as the entry is overwritten).
    stale: Ghost<spec_fn(Seq<Seq<char>>, SubscriptionId) -> nat>,
}

/// The id counter after handing out one more id: one up, wrapping to zero
/// after `u64::MAX`.
pub open spec fn next_id_after(n: u64) -> u64 {
    if n == u64::MAX {
        0
    } else {
        (n + 1) as u64
    }
}

/// How many registrations a consistent registry holds for `s` under pattern
/// `p`: one under the subject of the subscription held under `s`, if there is
/// one, and none otherwise (patterns compared in stored form).
pub open spec fn registration_count(
    subs: Map<u64, (Seq<char>, Option<Seq<char>>, u64)>,
    p: Seq<Seq<char>>,
    s: SubscriptionId,
) -> nat {
    if subs.contains_key(s.0) && pattern_key(p) == pattern_key(split_dots(subs[s.0].0)) {
        1
    } else {
        0
    }
}

/// `after` is `before` with `sid` subscribed to `subject` in queue group
/// `group`: the entry for `sid` becomes this subject and group with a sender
/// tagging `sid`, overwriting any earlier one, whose registration then stays
/// behind as a stale one; nothing else changes.
pub open spec fn subscribed(
    before: SubscriptionRegistry,
    after: SubscriptionRegistry,
    subject: Seq<char>,
    group: Option<Seq<char>>,
    sid: SubscriptionId,
) -> bool {
    &&& after.subscriptions() == before.subscriptions().insert(sid.0, (subject, group, sid.0))
    &&& after.upcoming_id() == before.upcoming_id()
    &&& forall|p: Seq<Seq<char>>, s: SubscriptionId|
        #[trigger] after.stale_count(p, s) == before.stale_count(p, s) + if s == sid {
            registration_count(before.subscriptions(), p, s)
        } else {
            0
        }
}

/// `after` is `before` with `sid` unsubscribed, `removed` telling whether it
/// had a subscription: its entry is gone, and when there was none nothing
/// changes.
pub open spec fn unsubscribed(
    before: SubscriptionRegistry,
    after: SubscriptionRegistry,
    sid: SubscriptionId,
    removed: bool,
) -> bool {
    &&& removed == before.subscriptions().contains_key(sid.0)
    &&& after.subscriptions() == before.subscriptions().remove(sid.0)
    &&& !removed ==> after.topics() == before.topics()
    &&& after.upcoming_id() == before.upcoming_id()
    &&& forall|p: Seq<Seq<char>>, s: SubscriptionId|
        #[trigger] after.stale_count(p, s) == before.stale_count(p, s)
}

/// The entry under `k` is tagged `k` and has a valid subject.
spec fn entry_consistent(k: u64, e: (Seq<char>, Option<Seq<char>>, u64)) -> bool {
    &&& e.2 == k
    &&& subject_error(e.0) is None
}

impl SubscriptionRegistry {
    /// The topic patterns registered so far.
    pub closed spec fn topics(&self) -> TopicTrie {
        self.trie
    }

    /// The subscriptions by id.
    pub closed spec fn subscriptions(&self) -> Map<u64, (Seq<char>, Option<Seq<char>>, u64)> {
        entry_map(self.entries)
    }

    /// The id that `next_id` hands out next.
    pub closed spec fn upcoming_id(&self) -> u64 {
        self.next_id
    }

    /// How many registrations of `s` under pattern `p` were left behind by
    /// subscribing `s` again while it still had a subscription.
    pub closed spec fn stale_count(&self, p: Seq<Seq<char>>, s: SubscriptionId) -> nat {
        (self.stale@)(p, s)
    }

    /// The registry's consistency: the trie is well formed, there are finitely
    /// many subscriptions, every entry sits under the id its sender tags with
    /// and holds a valid subject, and the trie holds one registration per
    /// subscription, under its subject, plus the stale ones, and no other.
    pub closed spec fn well_formed(&self) -> bool {
        &&& self.trie.well_formed()
        &&& entry_map(self.entries).dom().finite()
        &&& forall|k: u64| #[trigger]
            entry_map(self.entries).contains_key(k) ==> entry_consistent(
                k,
                entry_map(self.entries)[k],
            )
        &&& forall|p: Seq<Seq<char>>, s: SubscriptionId|
            #[trigger] self.trie.count(p, s) == registration_count(entry_map(self.entries), p, s)
                + (self.stale@)(p, s)
    }

    /// This registry after `next_id` hands out an id.
    pub closed spec fn next_after(&self) -> SubscriptionRegistry {
        SubscriptionRegistry { next_id: next_id_after(self.next_id), ..*self }
    }

    /// In a consistent registry the topic registrations are those of the live
    /// subscriptions (one for each, under its subject) and the stale ones.
    /// There are finitely many subscriptions.
    pub proof fn lemma_registrations(&self, p: Seq<Seq<char>>, s: SubscriptionId)
        requires
            self.well_formed(),
        ensures
            self.topics().count(p, s) == registration_count(self.subscriptions(), p, s)
                + self.stale_count(p, s),
            self.subscriptions().dom().finite(),
    {
    }

    pub fn new() -> (r: SubscriptionRegistry)
        ensures
            r.well_formed(),
            forall|p: Seq<Seq<char>>, s: SubscriptionId| #[trigger] r.topics().count(p, s) == 0,
            r.subscriptions().dom() == Set::<u64>::empty(),
            r.upcoming_id() == 1,
            forall|p: Seq<Seq<char>>, s: SubscriptionId| #[trigger] r.stale_count(p, s) == 0,
    {
        let r = SubscriptionRegistry {
            trie: TopicTrie::new(),
            entries: entries_new(),
            next_id: 1,
            stale: Ghost(|p: Seq<Seq<char>>, s: SubscriptionId| 0nat),
        };
        proof {
            assert(entry_map(r.entries).dom() =~= Set::<u64>::empty());
        }
        r
    }

    /// Register a new subscription under the sender's id, which is returned:
    /// the subject's pattern gains a registration of the id, and the id's
    /// entry becomes this subject, queue group and sender. An earlier entry
    /// under the same id is overwritten, and its registration stays behind.
    pub fn subscribe(
        &mut self,
        subject: Subject,
        queue_group: Option<String>,
        sender: SubscriptionSender,
    ) -> (sid: SubscriptionId)
        requires
            old(self).well_formed(),
        ensures
            final(self).well_formed(),
            sid == sender.id(),
            subscribed(*old(self), *final(self), subject@, opt_string_view(queue_group), sid),
            forall|p: Seq<Seq<char>>, s: SubscriptionId|
                #[trigger] final(self).topics().count(p, s) == old(self).topics().count(p, s)
                    + key_hit(p, s, split_dots(subject@), sid),
            final(self).subscriptions().dom().len() == old(self).subscriptions().dom().len() + (
            if old(self).subscriptions().contains_key(sid.0) {
                0int
            } else {
                1int
            }),
    {
        let ghost g0 = *self;
        let ghost m0 = entry_map(self.entries);
        let ghost st0 = self.stale@;
        let sid = sender.sid();
        self.trie.insert(subject.as_str(), sid);
        let entry = SubscriptionEntry { subject, queue_group, sender };
        entries_insert(&mut self.entries, sid.0, entry);
        self.stale = Ghost(
            |p: Seq<Seq<char>>, s: SubscriptionId|
                st0(p, s) + if s == sid {
                    registration_count(m0, p, s)
                } else {
                    0
                },
        );
        proof {
            let m2 = entry_map(self.entries);
            assert(m2 == m0.insert(sid.0, (subject@, opt_string_view(queue_group), sid.0)));
            assert forall|k: u64| #[trigger] m2.contains_key(k) implies entry_consistent(
                k,
                m2[k],
            ) by {
                if k != sid.0 {
                    assert(m0.contains_key(k));
                }
            }
            assert forall|p: Seq<Seq<char>>, s: SubscriptionId|
                #[trigger] self.trie.count(p, s) == registration_count(m2, p, s) + (self.stale@)(
                    p,
                    s,
                ) by {
                assert(self.trie.count(p, s) == g0.trie.count(p, s) + key_hit(
                    p,
                    s,
                    split_dots(subject@),
                    sid,
                ));
                assert(g0.trie.count(p, s) == registration_count(m0, p, s) + st0(p, s));
            }
            if m0.contains_key(sid.0) {
                assert(m2.dom() =~= m0.dom());
            } else {
                assert(m2.dom() =~= m0.dom().insert(sid.0));
            }
        }
        sid
    }

    /// Remove a subscription. Returns true if it existed; then its entry is
    /// gone and so is its registration under its subject's pattern.
    pub fn unsubscribe(&mut self, sid: SubscriptionId) -> (r: bool)
        requires
            old(self).well_formed(),
        ensures
            final(self).well_formed(),
            unsubscribed(*old(self), *final(self), sid, r),
            final(self).subscriptions().dom().len() + (if r {
                1int
            } else {
                0int
            }) == old(self).subscriptions().dom().len(),
    {
        let ghost g0 = *self;
        let ghost m0 = entry_map(self.entries);
        match entries_remove(&mut self.entries, sid.0) {
            None => {
                proof {
                    assert(entry_map(self.entries) =~= m0);
                }
                false
            },
            Some(entry) => {
                let ghost t0 = self.trie;
                let ghost subj = split_dots(entry.subject@);
                proof {
                    assert(t0.count(subj, sid) == registration_count(m0, subj, sid) + (self.stale@)(
                        subj,
                        sid,
                    ));
                }
                let removed = self.trie.remove(entry.subject.as_str(), sid);
                proof {
                    let m1 = entry_map(self.entries);
                    assert forall|k: u64| #[trigger] m1.contains_key(k) implies entry_consistent(
                        k,
                        m1[k],
                    ) by {
                        assert(m0.contains_key(k));
                    }
                    assert forall|p: Seq<Seq<char>>, s: SubscriptionId|
                        #[trigger] self.trie.count(p, s) == registration_count(m1, p, s) + (self.stale@)(
                            p,
                            s,
                        ) by {
                        assert(self.trie.count(p, s) + removal_hit(removed, p, s, subj, sid)
                            == t0.count(p, s));
                        assert(t0.count(p, s) == registration_count(m0, p, s) + (self.stale@)(p, s));
                    }
                    assert(m1.dom() =~= m0.dom().remove(sid.0));
                }
                true
            },
        }
    }

    /// Find all subscription ids matching a concrete topic, each as many times
    /// as it is registered under patterns that match the topic.
    pub fn match_topic(&self, topic: &Subject) -> (r: Vec<SubscriptionId>)
        requires
            self.well_formed(),
        ensures
            r@ == self.topics().match_list(split_dots(topic@)),
            forall|s: SubscriptionId|
                #[trigger] count_of(r@, s) == self.topics().match_count(split_dots(topic@), s),
    {
        self.trie.matches(topic.as_str())
    }

    /// Get both sender and queue group in a single lookup.
    pub fn get_routing_info(&self, sid: SubscriptionId) -> (r: Option<
        (SubscriptionSender, Option<String>),
    >)
        ensures
            r is Some <==> self.subscriptions().contains_key(sid.0),
            r matches Some(info) ==> info.0.id().0 == self.subscriptions()[sid.0].2
                && opt_string_view(info.1) == self.subscriptions()[sid.0].1,
    {
        entries_routing_info(&self.entries, sid.0)
    }

    /// Get the sender for a subscription, if it still exists.
    pub fn get_sender(&self, sid: SubscriptionId) -> (r: Option<SubscriptionSender>)
        ensures
            r is Some <==> self.subscriptions().contains_key(sid.0),
            r matches Some(s) ==> s.id().0 == self.subscriptions()[sid.0].2,
    {
        match self.get_routing_info(sid) {
            Some((sender, _)) => Some(sender),
            None => None,
        }
    }

    /// Get the queue group for a subscription, if any.
    pub fn get_queue_group(&self, sid: SubscriptionId) -> (r: Option<String>)
        ensures
            opt_string_view(r) == if self.subscriptions().contains_key(sid.0) {
                self.subscriptions()[sid.0].1
            } else {
                None
            },
    {
        match self.get_routing_info(sid) {
            Some((_, group)) => group,
            None => None,
        }
    }

    /// Generate a unique internal subscription id: the counter's value, after
    /// which the counter moves on by one.
    pub fn next_id(&mut self) -> (r: SubscriptionId)
        ensures
            r.0 == old(self).upcoming_id(),
            *final(self) == old(self).next_after(),
            final(self).upcoming_id() == next_id_after(old(self).upcoming_id()),
            final(self).topics() == old(self).topics(),
            final(self).subscriptions() == old(self).subscriptions(),
            final(self).well_formed() == old(self).well_formed(),
    {
        let ghost g0 = *self;
        let id = self.next_id;
        self.next_id = if id == u64::MAX {
            0
        } else {
            id + 1
        };
        proof {
            assert(self.trie == g0.trie && self.entries == g0.entries);
            assert(self.well_formed() == g0.well_formed());
        }
        SubscriptionId(id)
    }

    /// Number of active subscriptions.
    pub fn len(&self) -> (n: usize)
        ensures
            n == self.subscriptions().dom().len(),
    {
        entries_len(&self.entries)
    }

    pub fn is_empty(&self) -> (r: bool)
        ensures
            r == (self.subscriptions().dom().len() == 0),
    {
        self.len() == 0
    }
}

impl SubscriptionRegistry {
    /// Every subscription is held under the id its sender tags messages with,
    /// has a valid subject, and is registered under that subject.
    pub proof fn lemma_subscription_registered(&self, id: u64)
        requires
            self.well_formed(),
            self.subscriptions().contains_key(id),
        ensures
            self.subscriptions()[id].2 == id,
            subject_error(self.subscriptions()[id].0) is None,
            self.topics().count(split_dots(self.subscriptions()[id].0), SubscriptionId(id)) >= 1,
    {
        assert(entry_consistent(id, entry_map(self.entries)[id]));
        self.lemma_registrations(split_dots(self.subscriptions()[id].0), SubscriptionId(id));
    }
}

/// After `subscribe` turns `before` into `after`, every topic that the
/// subject's pattern matches is matched to the new subscription's id.
pub proof fn lemma_subscribe_then_match(
    before: SubscriptionRegistry,
    after: SubscriptionRegistry,
    subject: Seq<char>,
    group: Option<Seq<char>>,
    sid: SubscriptionId,
    topic: Seq<Seq<char>>,
)
    requires
        after.well_formed(),
        subscribed(before, after, subject, group, sid),
        pattern_matches(pattern_key(split_dots(subject)), topic),
    ensures
        after.topics().match_count(topic, sid) >= 1,
{
    let k = pattern_key(split_dots(subject));
    lemma_pattern_key_is_key(split_dots(subject));
    after.lemma_registrations(k, sid);
    after.topics().lemma_matching_registration_counted(k, topic, sid);
}

/// Unsubscribing an id that was just subscribed (and had no subscription
/// before) succeeds and gives back the registry's subscriptions and topic
/// registrations as they were.
pub proof fn lemma_subscribe_then_unsubscribe(
    before: SubscriptionRegistry,
    middle: SubscriptionRegistry,
    after: SubscriptionRegistry,
    subject: Seq<char>,
    group: Option<Seq<char>>,
    sid: SubscriptionId,
    removed: bool,
)
    requires
        before.well_formed(),
        after.well_formed(),
        !before.subscriptions().contains_key(sid.0),
        subscribed(before, middle, subject, group, sid),
        unsubscribed(middle, after, sid, removed),
    ensures
        removed,
        after.subscriptions() == before.subscriptions(),
        forall|p: Seq<Seq<char>>, s: SubscriptionId|
            #[trigger] after.topics().count(p, s) == before.topics().count(p, s),
{
    assert(after.subscriptions() =~= before.subscriptions());
    assert forall|p: Seq<Seq<char>>, s: SubscriptionId|
        #[trigger] after.topics().count(p, s) == before.topics().count(p, s) by {
        after.lemma_registrations(p, s);
        before.lemma_registrations(p, s);
    }
}

/// When a subscription is gone, no pattern holds a registration of its id,
/// unless one was left stale by subscribing the id again while it was live:
/// a later publish cannot be matched to it.
pub proof fn lemma_gone_is_unregistered(
    registry: SubscriptionRegistry,
    sid: SubscriptionId,
    p: Seq<Seq<char>>,
)
    requires
        registry.well_formed(),
        !registry.subscriptions().contains_key(sid.0),
        registry.stale_count(p, sid) == 0,
    ensures
        registry.topics().count(p, sid) == 0,
{
    registry.lemma_registrations(p, sid);
}

impl Default for SubscriptionRegistry {
    fn default() -> (r: Self)
        ensures
            r.well_formed(),
            r.subscriptions().dom() == Set::<u64>::empty(),
            r.upcoming_id() == 1,
    {
        Self::new()
    }
}

} // verus!
