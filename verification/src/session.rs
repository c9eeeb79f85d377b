use vstd::prelude::*;

use std::collections::HashMap;
use std::time::Duration;
use tokio::sync::mpsc::Sender;

use crate::error::PubSubError;
use crate::frame::Frame;
use crate::message::Message;
use crate::registry::{opt_string_view, subscribed, unsubscribed, SubscriptionRegistry};
use crate::router::{routed_as, Router, RoutingResult};
use crate::subscription::{SubscriptionId, SubscriptionSender, TaggedMessage};
use crate::text::{decimal, push_decimal};
use crate::topic::{has_wildcard_char, subject_error, Subject};

verus! {

broadcast use vstd::std_specs::hash::group_hash_axioms;

/// Configuration parameters for a session, extracted to avoid too many constructor args.
pub struct SessionConfig {
    pub channel_buffer_size: usize,
    pub max_subscriptions: usize,
    pub ping_interval: Duration,
    pub ping_timeout: Duration,
}

/// The error a subject is refused with: `InvalidSubject` carrying the reason.
pub open spec fn refused_as(e: PubSubError, why: Seq<char>) -> bool {
    e matches PubSubError::InvalidSubject { reason } && reason@ == why
}

/// Why a publish to a topic holding a wildcard is refused: wildcards are
/// only valid on the subscriber side.
pub open spec fn wildcard_publish_reason() -> Seq<char> {
    "cannot publish to a wildcard subject"@
}

/// Why a publish with this topic and reply subject is refused, or `None`
/// when it is accepted: the topic must be a valid subject without wildcards,
/// then the reply subject, if any, must be a valid subject.
pub open spec fn publish_error(topic: Seq<char>, reply_to: Option<Seq<char>>) -> Option<Seq<char>> {
    match subject_error(topic) {
        Some(why) => Some(why),
        None => if has_wildcard_char(topic) {
            Some(wildcard_publish_reason())
        } else {
            match reply_to {
                Some(r) => subject_error(r),
                None => None,
            }
        },
    }
}

/// What handling a publish of `payload` to `topic` (with reply subject
/// `reply`) gives, taking the router from `r0` to `r1`: refused as the first
/// reason that applies, leaving the router alone, or the message with this
/// topic, payload and reply subject routed through `registry`.
pub open spec fn publish_handled(
    registry: SubscriptionRegistry,
    topic: Seq<char>,
    payload: Seq<u8>,
    reply: Option<Seq<char>>,
    r0: Router,
    r1: Router,
    r: Result<RoutingResult, PubSubError>,
) -> bool {
    match publish_error(topic, reply) {
        Some(why) => (r matches Err(e) && refused_as(e, why)) && r1 == r0,
        None => r matches Ok(res) && routed_as(
            registry,
            (topic, payload, reply),
            r0.counters(),
            r1.counters(),
            r0.offers(),
            r1.offers(),
            res,
        ),
    }
}

/// What handling a subscribe of client sid `client_sid` to `subject` in
/// `group` gives, taking session `s0` and registry `g0` to `s1` and `g1`.
pub open spec fn subscribe_handled(
    s0: SessionState,
    s1: SessionState,
    g0: SubscriptionRegistry,
    g1: SubscriptionRegistry,
    client_sid: u64,
    subject: Seq<char>,
    group: Option<Seq<char>>,
    r: Result<(), PubSubError>,
) -> bool {
    &&& s1.limit() == s0.limit()
    &&& s0.at_limit() ==> (r matches Err(PubSubError::Protocol(msg)) && msg@
        == "subscription limit reached (max "@ + decimal(s0.limit() as nat) + ")"@)
    &&& !s0.at_limit() && subject_error(subject) is Some ==> (r matches Err(e) && refused_as(
        e,
        subject_error(subject)->0,
    ))
    &&& r is Err ==> s1 == s0 && g1 == g0
    &&& !s0.at_limit() && subject_error(subject) is None ==> ({
        let id = g0.upcoming_id();
        &&& r is Ok
        &&& subscribed(g0.next_after(), g1, subject, group, SubscriptionId(id))
        &&& s1.clients() == s0.clients().insert(client_sid, id)
        &&& s1.internals() == s0.internals().insert(id, client_sid)
    })
}

/// What handling an unsubscribe of client sid `client_sid` gives, taking
/// session `s0` and registry `g0` to `s1` and `g1`.
pub open spec fn unsubscribe_handled(
    s0: SessionState,
    s1: SessionState,
    g0: SubscriptionRegistry,
    g1: SubscriptionRegistry,
    client_sid: u64,
) -> bool {
    &&& s1.limit() == s0.limit()
    &&& !s0.clients().contains_key(client_sid) ==> s1.clients() == s0.clients() && s1.internals()
        == s0.internals() && g1 == g0
    &&& s0.clients().contains_key(client_sid) ==> ({
        let id = s0.clients()[client_sid];
        &&& s1.clients() == s0.clients().remove(client_sid)
        &&& s1.internals() == s0.internals().remove(id)
        &&& exists|removed: bool| unsubscribed(g0, g1, SubscriptionId(id), removed)
    })
}

/// The subscription limit is per connection: a subscribe with a valid
/// subject on a session holding fewer subscriptions than its limit (or with
/// no limit) succeeds and pairs the client's sid, whatever the registry
/// holds; a session at its limit is refused and nothing changes.
pub proof fn lemma_subscribe_limit_is_per_session(
    s0: SessionState,
    s1: SessionState,
    g0: SubscriptionRegistry,
    g1: SubscriptionRegistry,
    client_sid: u64,
    subject: Seq<char>,
    group: Option<Seq<char>>,
    r: Result<(), PubSubError>,
)
    requires
        subscribe_handled(s0, s1, g0, g1, client_sid, subject, group, r),
    ensures
        (s0.limit() == 0 || s0.clients().dom().len() < s0.limit()) && subject_error(subject) is None
            ==> r is Ok && s1.clients().contains_key(client_sid),
        s0.limit() > 0 && s0.clients().dom().len() >= s0.limit() ==> r is Err && s1 == s0 && g1
            == g0,
{
}

/// Unsubscribing frees the client's sid: afterwards the session no longer
/// holds it and holds every other sid as before, so a slot is free again.
pub proof fn lemma_unsubscribe_frees_sid(
    s0: SessionState,
    s1: SessionState,
    g0: SubscriptionRegistry,
    g1: SubscriptionRegistry,
    client_sid: u64,
)
    requires
        unsubscribe_handled(s0, s1, g0, g1, client_sid),
    ensures
        !s1.clients().contains_key(client_sid),
        s1.clients() == s0.clients().remove(client_sid),
        s0.clients().dom().finite() && s0.clients().contains_key(client_sid) ==> s1.clients().dom().len()
            + 1 == s0.clients().dom().len(),
        s1.limit() == s0.limit(),
{
    if !s0.clients().contains_key(client_sid) {
        assert(s1.clients() =~= s0.clients().remove(client_sid));
    }
}

/// The text of `Debug` for the discriminant of the frame variant at `index`.
pub open spec fn unexpected_frame_message(index: nat) -> Seq<char> {
    "unexpected frame from client: Discriminant("@ + decimal(index) + ")"@
}

/// The per-connection subscription bookkeeping of a session: which broker
/// subscription id each of the client's subscription ids stands for, and
/// back.
pub struct SessionState {
    /// Maps client-chosen sid -> server-internal subscription id.
    subscriptions: HashMap<u64, u64>,
    /// Maps server-internal subscription id -> client sid (for outbound routing).
    internal_to_client: HashMap<u64, u64>,
    max_subscriptions: usize,
}

impl SessionState {
    /// Client sid -> internal id.
    pub closed spec fn clients(&self) -> Map<u64, u64> {
        self.subscriptions@
    }

    /// Internal id -> client sid.
    pub closed spec fn internals(&self) -> Map<u64, u64> {
        self.internal_to_client@
    }

    /// The most subscriptions the client may hold (0 = unlimited).
    pub closed spec fn limit(&self) -> usize {
        self.max_subscriptions
    }

    /// Whether the subscription limit refuses another subscription.
    pub open spec fn at_limit(&self) -> bool {
        self.limit() > 0 && self.clients().dom().len() >= self.limit()
    }

    pub fn new(max_subscriptions: usize) -> (s: SessionState)
        ensures
            s.clients().dom() == Set::<u64>::empty(),
            s.internals().dom() == Set::<u64>::empty(),
            s.limit() == max_subscriptions,
    {
        let s = SessionState {
            subscriptions: HashMap::new(),
            internal_to_client: HashMap::new(),
            max_subscriptions,
        };
        proof {
            assert(s.subscriptions@.dom() =~= Set::<u64>::empty());
            assert(s.internal_to_client@.dom() =~= Set::<u64>::empty());
        }
        s
    }

    /// Handles a publish: the topic must be a valid subject without
    /// wildcards (they are only valid on the subscriber side) and the reply
    /// subject, if any, valid; then the message is routed.
    pub fn handle_publish(
        &self,
        router: &mut Router,
        registry: &SubscriptionRegistry,
        topic: String,
        payload: Vec<u8>,
        reply_to: Option<String>,
    ) -> (r: Result<RoutingResult, PubSubError>)
        requires
            registry.well_formed(),
        ensures
            publish_handled(
                *registry,
                topic@,
                payload@,
                opt_string_view(reply_to),
                *old(router),
                *final(router),
                r,
            ),
    {
        let subject = match Subject::new(topic.as_str()) {
            Ok(s) => s,
            Err(e) => {
                return Err(e);
            },
        };
        if subject.is_wildcard() {
            proof {
                reveal_strlit("cannot publish to a wildcard subject");
            }
            return Err(
                PubSubError::InvalidSubject {
                    reason: String::from_str("cannot publish to a wildcard subject"),
                },
            );
        }
        let msg = match reply_to {
            Some(reply) => match Subject::new(reply.as_str()) {
                Ok(rs) => Message::with_reply(subject, payload, rs),
                Err(e) => {
                    return Err(e);
                },
            },
            None => Message::new(subject, payload),
        };
        Ok(router.route(registry, &msg))
    }

    /// Handles a subscribe: refused when the limit is reached or the subject
    /// is invalid; otherwise a fresh broker id is drawn, registered with the
    /// subject and queue group and a sender on `tx`, and paired with the
    /// client's sid.
    pub fn handle_subscribe(
        &mut self,
        registry: &mut SubscriptionRegistry,
        client_sid: u64,
        subject: String,
        queue_group: Option<String>,
        tx: Sender<TaggedMessage>,
    ) -> (r: Result<(), PubSubError>)
        requires
            old(registry).well_formed(),
        ensures
            final(registry).well_formed(),
            subscribe_handled(
                *old(self),
                *final(self),
                *old(registry),
                *final(registry),
                client_sid,
                subject@,
                opt_string_view(queue_group),
                r,
            ),
            (old(self).limit() == 0 || old(self).clients().dom().len() < old(self).limit())
                && subject_error(subject@) is None ==> r is Ok && final(self).clients().contains_key(
                client_sid,
            ),
            old(self).limit() > 0 && old(self).clients().dom().len() >= old(self).limit() ==> r is Err
                && *final(self) == *old(self) && *final(registry) == *old(registry),
    {
        if self.max_subscriptions > 0 && self.subscriptions.len() >= self.max_subscriptions {
            let mut msg = String::from_str("subscription limit reached (max ");
            push_decimal(&mut msg, self.max_subscriptions as u64);
            msg.append(")");
            return Err(PubSubError::Protocol(msg));
        }
        let subject = match Subject::new(subject.as_str()) {
            Ok(s) => s,
            Err(e) => {
                return Err(e);
            },
        };
        let internal_sid = registry.next_id();
        let sender = SubscriptionSender::new(internal_sid, tx);
        registry.subscribe(subject, queue_group, sender);
        self.subscriptions.insert(client_sid, internal_sid.0);
        self.internal_to_client.insert(internal_sid.0, client_sid);
        Ok(())
    }

    /// Handles an unsubscribe: when the client's sid is paired with a broker
    /// id, the pair is dropped and that id unsubscribed; otherwise nothing
    /// changes.
    pub fn handle_unsubscribe(&mut self, registry: &mut SubscriptionRegistry, client_sid: u64)
        requires
            old(registry).well_formed(),
        ensures
            final(registry).well_formed(),
            unsubscribe_handled(*old(self), *final(self), *old(registry), *final(registry), client_sid),
            final(self).clients() == old(self).clients().remove(client_sid),
            !final(self).clients().contains_key(client_sid),
    {
        let ghost g0 = *registry;
        match self.subscriptions.remove(&client_sid) {
            Some(internal_sid) => {
                self.internal_to_client.remove(&internal_sid);
                let removed = registry.unsubscribe(SubscriptionId(internal_sid));
                assert(unsubscribed(g0, *registry, SubscriptionId(internal_sid), removed));
                assert(old(self).clients().contains_key(client_sid));
                assert(old(self).clients()[client_sid] == internal_sid);
                assert(self.clients() == old(self).clients().remove(client_sid));
                assert(self.internals() == old(self).internals().remove(internal_sid));
                assert(self.limit() == old(self).limit());
            },
            None => {
                assert(!old(self).clients().contains_key(client_sid));
                assert(self.clients() == old(self).clients());
                assert(self.clients() =~= old(self).clients().remove(client_sid));
            },
        }
    }

    /// Handles one frame from the client; on success gives the frame to send
    /// back, if any: `OkReply` after a subscribe or an unsubscribe, `Pong`
    /// after a ping, nothing after a publish or a pong. Frames that only the
    /// broker sends are refused.
    pub fn handle_frame(
        &mut self,
        router: &mut Router,
        registry: &mut SubscriptionRegistry,
        frame: Frame,
        tx: Sender<TaggedMessage>,
    ) -> (r: Result<Option<Frame>, PubSubError>)
        requires
            old(registry).well_formed(),
        ensures
            final(registry).well_formed(),
            match frame {
                Frame::Publish { topic, payload, reply_to } => {
                    &&& *final(self) == *old(self)
                    &&& *final(registry) == *old(registry)
                    &&& exists|pr: Result<RoutingResult, PubSubError>|
                        {
                            &&& publish_handled(
                                *old(registry),
                                topic@,
                                payload@,
                                opt_string_view(reply_to),
                                *old(router),
                                *final(router),
                                pr,
                            )
                            &&& pr is Ok ==> (r matches Ok(None))
                            &&& pr is Err ==> r == Err::<Option<Frame>, PubSubError>(pr->Err_0)
                        }
                },
                Frame::Subscribe { sid, subject, queue_group } => {
                    &&& *final(router) == *old(router)
                    &&& exists|sr: Result<(), PubSubError>|
                        {
                            &&& subscribe_handled(
                                *old(self),
                                *final(self),
                                *old(registry),
                                *final(registry),
                                sid,
                                subject@,
                                opt_string_view(queue_group),
                                sr,
                            )
                            &&& sr is Ok ==> (r matches Ok(Some(Frame::OkReply)))
                            &&& sr is Err ==> r == Err::<Option<Frame>, PubSubError>(sr->Err_0)
                        }
                },
                Frame::Unsubscribe { sid } => {
                    &&& *final(router) == *old(router)
                    &&& !final(self).clients().contains_key(sid)
                    &&& r matches Ok(Some(Frame::OkReply))
                    &&& unsubscribe_handled(
                        *old(self),
                        *final(self),
                        *old(registry),
                        *final(registry),
                        sid,
                    )
                },
                Frame::Ping => r matches Ok(Some(Frame::Pong)) && *final(self) == *old(self)
                    && *final(registry) == *old(registry) && *final(router) == *old(router),
                Frame::Pong => r matches Ok(None) && *final(self) == *old(self) && *final(registry)
                    == *old(registry) && *final(router) == *old(router),
                Frame::Message { .. } => (r matches Err(PubSubError::Protocol(msg)) && msg@
                    == unexpected_frame_message(3)) && *final(self) == *old(self)
                    && *final(registry) == *old(registry) && *final(router) == *old(router),
                Frame::OkReply => (r matches Err(PubSubError::Protocol(msg)) && msg@
                    == unexpected_frame_message(6)) && *final(self) == *old(self)
                    && *final(registry) == *old(registry) && *final(router) == *old(router),
                Frame::ErrReply { .. } => (r matches Err(PubSubError::Protocol(msg)) && msg@
                    == unexpected_frame_message(7)) && *final(self) == *old(self)
                    && *final(registry) == *old(registry) && *final(router) == *old(router),
            },
    {
        match frame {
            Frame::Publish { topic, payload, reply_to } => {
                match self.handle_publish(router, registry, topic, payload, reply_to) {
                    Ok(_) => Ok(None),
                    Err(e) => Err(e),
                }
            },
            Frame::Subscribe { sid, subject, queue_group } => {
                match self.handle_subscribe(registry, sid, subject, queue_group, tx) {
                    Ok(()) => Ok(Some(Frame::OkReply)),
                    Err(e) => Err(e),
                }
            },
            Frame::Unsubscribe { sid } => {
                self.handle_unsubscribe(registry, sid);
                Ok(Some(Frame::OkReply))
            },
            Frame::Ping => Ok(Some(Frame::Pong)),
            Frame::Pong => Ok(None),
            Frame::Message { .. } => Err(PubSubError::Protocol(unexpected_frame_text(3))),
            Frame::OkReply => Err(PubSubError::Protocol(unexpected_frame_text(6))),
            Frame::ErrReply { .. } => Err(PubSubError::Protocol(unexpected_frame_text(7))),
        }
    }

    /// The broker ids this session holds, in some order.
    fn internal_ids(&self) -> (ids: Vec<u64>)
        ensures
            forall|id: u64| ids@.contains(id) <==> self.clients().values().contains(id),
    {
        let mut ids: Vec<u64> = Vec::new();
        let ghost vals = self.subscriptions@.values();
        for id in it: self.subscriptions.values()
            invariant
                ids@.len() == it.index(),
                forall|i: int| 0 <= i < ids@.len() ==> ids@[i] == *it.seq()[i],
                it.seq().unref().to_set() == vals,
                forall|v: u64| #[trigger] ids@.contains(v) ==> vals.contains(v),
                forall|v: u64|
                    vals.contains(v) ==> #[trigger] ids@.contains(v) || exists|j: int|
                        it.index() <= j < it.seq().len() && *it.seq()[j] == v,
        {
            proof {
                let q = it.seq().unref();
                assert(q[it.index() as int] == *id);
                assert(q.to_set().contains(*id));
            }
            let ghost before = ids@;
            ids.push(*id);
            proof {
                assert forall|v: u64| #[trigger] ids@.contains(v) implies vals.contains(v) by {
                    if before.contains(v) {
                    } else {
                        let k = choose|k: int| 0 <= k < ids@.len() && ids@[k] == v;
                        if k < before.len() {
                            assert(before[k] == v);
                        }
                    }
                }
                assert forall|v: u64| vals.contains(v) implies #[trigger] ids@.contains(v) || exists|j: int|
                        it.index() + 1 <= j < it.seq().len() && *it.seq()[j] == v by {
                    if before.contains(v) {
                        let k = choose|k: int| 0 <= k < before.len() && before[k] == v;
                        assert(ids@[k] == v);
                    } else if v == *id {
                        assert(ids@[before.len() as int] == v);
                    }
                }
            }
        }
        ids
    }

    /// Ends the session: every broker id it holds is unsubscribed, so no
    /// pattern holds a registration of it any more (but for stale ones, left
    /// when an id was subscribed again while live), and the session holds
    /// none afterwards; every other subscription stays as it was.
    pub fn cleanup(&mut self, registry: &mut SubscriptionRegistry)
        requires
            old(registry).well_formed(),
        ensures
            final(registry).well_formed(),
            final(self).limit() == old(self).limit(),
            final(self).clients().dom() == Set::<u64>::empty(),
            final(self).internals().dom() == Set::<u64>::empty(),
            final(registry).upcoming_id() == old(registry).upcoming_id(),
            forall|id: u64|
                old(self).clients().values().contains(id) ==> !(#[trigger] final(registry).subscriptions().contains_key(id)),
            forall|p: Seq<Seq<char>>, id: u64|
                old(self).clients().values().contains(id) ==> #[trigger] final(registry).topics().count(p, SubscriptionId(id))
                    == old(registry).stale_count(p, SubscriptionId(id)),
            forall|p: Seq<Seq<char>>, s: SubscriptionId|
                #[trigger] final(registry).stale_count(p, s) == old(registry).stale_count(p, s),
            forall|id: u64|
                !old(self).clients().values().contains(id) ==> (#[trigger] final(registry).subscriptions().contains_key(id) == old(registry).subscriptions().contains_key(id)
                    && (final(registry).subscriptions().contains_key(id) ==> final(registry).subscriptions()[id] == old(registry).subscriptions()[id])),
            forall|p: Seq<Seq<char>>, s: SubscriptionId|
                !old(self).clients().values().contains(s.0) ==> #[trigger] final(registry).topics().count(p, s) == old(registry).topics().count(p, s),
            forall|p: Seq<Seq<char>>, s: SubscriptionId|
                #[trigger] final(registry).topics().count(p, s) <= old(registry).topics().count(p, s),
    {
        let ids = self.internal_ids();
        let ghost g0 = *registry;
        let mut i: usize = 0;
        while i < ids.len()
            invariant
                i <= ids@.len(),
                registry.well_formed(),
                registry.upcoming_id() == g0.upcoming_id(),
                forall|k: int| 0 <= k < i ==> !registry.subscriptions().contains_key(#[trigger] ids@[k]),
                forall|id: u64|
                    #[trigger] registry.subscriptions().contains_key(id) ==> g0.subscriptions().contains_key(id)
                        && registry.subscriptions()[id] == g0.subscriptions()[id],
                forall|id: u64|
                    !ids@.contains(id) ==> (#[trigger] registry.subscriptions().contains_key(id)
                        == g0.subscriptions().contains_key(id)),
                forall|p: Seq<Seq<char>>, s: SubscriptionId|
                    #[trigger] registry.stale_count(p, s) == g0.stale_count(p, s),
            decreases ids@.len() - i,
        {
            let ghost r0 = *registry;
            let sid = SubscriptionId(ids[i]);
            let removed = registry.unsubscribe(sid);
            proof {
                assert(unsubscribed(r0, *registry, sid, removed));
                assert forall|k: int| 0 <= k < i + 1 implies !registry.subscriptions().contains_key(
                    #[trigger] ids@[k],
                ) by {
                    if k < i {
                        assert(!r0.subscriptions().contains_key(ids@[k]));
                    }
                }
                assert forall|id: u64| !ids@.contains(id) implies (#[trigger] registry.subscriptions().contains_key(id)
                        == g0.subscriptions().contains_key(id)) by {
                    assert(ids@[i as int] == sid.0);
                    assert(id != sid.0);
                    assert(r0.subscriptions().contains_key(id) == g0.subscriptions().contains_key(id));
                }
                assert forall|id: u64| #[trigger] registry.subscriptions().contains_key(id) implies g0.subscriptions().contains_key(id)
                        && registry.subscriptions()[id] == g0.subscriptions()[id] by {
                    assert(r0.subscriptions().contains_key(id));
                }
            }
            i = i + 1;
        }
        self.subscriptions.clear();
        self.internal_to_client.clear();
        proof {
            assert(self.subscriptions@.dom() =~= Set::<u64>::empty());
            assert(self.internal_to_client@.dom() =~= Set::<u64>::empty());
            assert forall|id: u64| old(self).clients().values().contains(id) implies !(#[trigger] registry.subscriptions().contains_key(id)) by {
                assert(ids@.contains(id));
                let k = choose|k: int| 0 <= k < ids@.len() && ids@[k] == id;
                assert(!registry.subscriptions().contains_key(ids@[k]));
            }
            assert forall|p: Seq<Seq<char>>, id: u64|
                old(self).clients().values().contains(id) implies #[trigger] registry.topics().count(p, SubscriptionId(id))
                    == g0.stale_count(p, SubscriptionId(id)) by {
                assert(!registry.subscriptions().contains_key(id));
                registry.lemma_registrations(p, SubscriptionId(id));
            }
            assert forall|p: Seq<Seq<char>>, s: SubscriptionId|
                !old(self).clients().values().contains(s.0) implies #[trigger] registry.topics().count(p, s) == g0.topics().count(p, s) by {
                registry.lemma_registrations(p, s);
                g0.lemma_registrations(p, s);
                assert(!ids@.contains(s.0));
                if g0.subscriptions().contains_key(s.0) {
                    assert(registry.subscriptions().contains_key(s.0));
                }
            }
            assert forall|p: Seq<Seq<char>>, s: SubscriptionId|
                #[trigger] registry.topics().count(p, s) <= g0.topics().count(p, s) by {
                registry.lemma_registrations(p, s);
                g0.lemma_registrations(p, s);
            }
        }
    }

    /// The frame that delivers a routed message to the client, under the
    /// client's sid for the broker id it is tagged with; `None` when that id
    /// is not (or no longer) one of this session's.
    pub fn outbound_frame(&self, tagged: TaggedMessage) -> (f: Option<Frame>)
        ensures
            !self.internals().contains_key(tagged.0.0) ==> f is None,
            self.internals().contains_key(tagged.0.0) ==> (f matches Some(
                Frame::Message { topic, sid, payload, reply_to },
            ) && topic@ == tagged.1.topic@ && sid == self.internals()[tagged.0.0] && payload@
                == tagged.1.payload@ && reply_to_matches(reply_to, tagged.1.reply_to)),
    {
        let (internal_sid, msg) = tagged;
        let client_sid = match self.internal_to_client.get(&internal_sid.0) {
            Some(c) => *c,
            None => {
                return None;
            },
        };
        let reply_to = match &msg.reply_to {
            Some(s) => Some(s.to_string()),
            None => None,
        };
        Some(
            Frame::Message {
                topic: msg.topic.to_string(),
                sid: client_sid,
                payload: msg.payload,
                reply_to,
            },
        )
    }
}

fn unexpected_frame_text(index: u64) -> (s: String)
    ensures
        s@ == unexpected_frame_message(index as nat),
{
    let mut s = String::from_str("unexpected frame from client: Discriminant(");
    push_decimal(&mut s, index);
    s.append(")");
    s
}

/// The wire reply subject carries the message's reply subject text.
pub open spec fn reply_to_matches(wire: Option<String>, subject: Option<Subject>) -> bool {
    match (wire, subject) {
        (Some(a), Some(b)) => a@ == b@,
        (None, None) => true,
        _ => false,
    }
}

} // verus!
