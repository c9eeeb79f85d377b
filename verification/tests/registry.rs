use tokio::sync::mpsc;

use topiq::{Subject, SubscriptionId, SubscriptionRegistry, SubscriptionSender, TaggedMessage};

fn make_sender(sid: SubscriptionId) -> (SubscriptionSender, mpsc::Receiver<TaggedMessage>) {
    let (tx, rx) = mpsc::channel(16);
    (SubscriptionSender::new(sid, tx), rx)
}

#[test]
fn subscribe_and_match() {
    let mut registry = SubscriptionRegistry::new();
    let sid = SubscriptionId(1);
    let (sender, _rx) = make_sender(sid);

    registry.subscribe(Subject::new("a.b").unwrap(), None, sender);

    let matches = registry.match_topic(&Subject::new("a.b").unwrap());
    assert_eq!(matches, vec![sid]);
}

#[test]
fn unsubscribe_removes_from_trie() {
    let mut registry = SubscriptionRegistry::new();
    let sid = SubscriptionId(1);
    let (sender, _rx) = make_sender(sid);

    registry.subscribe(Subject::new("a.b").unwrap(), None, sender);
    assert!(registry.unsubscribe(sid));

    let matches = registry.match_topic(&Subject::new("a.b").unwrap());
    assert!(matches.is_empty());
    assert!(registry.is_empty());
}

#[test]
fn unsubscribe_nonexistent_returns_false() {
    let mut registry = SubscriptionRegistry::new();
    assert!(!registry.unsubscribe(SubscriptionId(99)));
}

#[test]
fn get_sender_works() {
    let mut registry = SubscriptionRegistry::new();
    let sid = SubscriptionId(1);
    let (sender, _rx) = make_sender(sid);

    registry.subscribe(Subject::new("a.b").unwrap(), None, sender);

    assert!(registry.get_sender(sid).is_some());
    assert!(registry.get_sender(SubscriptionId(99)).is_none());
}

#[test]
fn next_id_increments() {
    let mut registry = SubscriptionRegistry::new();
    let id1 = registry.next_id();
    let id2 = registry.next_id();
    assert_ne!(id1, id2);
    assert_eq!(id1.0 + 1, id2.0);
}

#[test]
fn wildcard_matching_through_registry() {
    let mut registry = SubscriptionRegistry::new();

    let sid1 = SubscriptionId(1);
    let (sender1, _rx1) = make_sender(sid1);
    registry.subscribe(Subject::new("a.>").unwrap(), None, sender1);

    let sid2 = SubscriptionId(2);
    let (sender2, _rx2) = make_sender(sid2);
    registry.subscribe(Subject::new("a.b").unwrap(), None, sender2);

    let mut matches = registry.match_topic(&Subject::new("a.b").unwrap());
    matches.sort_by_key(|s| s.0);
    assert_eq!(matches, vec![sid1, sid2]);
}

#[test]
fn queue_group_and_sender_are_kept() {
    let mut registry = SubscriptionRegistry::default();
    let (sender, _rx) = make_sender(SubscriptionId(5));
    let sid = registry.subscribe(Subject::new("jobs.>").unwrap(), Some("workers".into()), sender);
    assert_eq!(sid, SubscriptionId(5));
    assert_eq!(registry.get_queue_group(sid), Some("workers".to_string()));
    let (s, g) = registry.get_routing_info(sid).unwrap();
    assert_eq!(s.sid(), sid);
    assert_eq!(g, Some("workers".to_string()));
    assert_eq!(registry.get_queue_group(SubscriptionId(6)), None);
    assert_eq!(registry.len(), 1);
}

#[test]
fn first_id_is_one() {
    let mut registry = SubscriptionRegistry::new();
    assert_eq!(registry.next_id(), SubscriptionId(1));
}

#[test]
fn resubscribing_an_id_overwrites_its_entry() {
    let mut registry = SubscriptionRegistry::new();
    let sid = SubscriptionId(5);
    let (s1, _r1) = make_sender(sid);
    let (s2, _r2) = make_sender(sid);
    registry.subscribe(Subject::new("a").unwrap(), None, s1);
    registry.subscribe(Subject::new("b").unwrap(), None, s2);
    assert_eq!(registry.len(), 1);
    // The entry is overwritten; the earlier registration stays in the trie.
    assert_eq!(registry.match_topic(&Subject::new("a").unwrap()), vec![sid]);
    assert_eq!(registry.match_topic(&Subject::new("b").unwrap()), vec![sid]);
    assert!(registry.unsubscribe(sid));
    assert!(registry.match_topic(&Subject::new("b").unwrap()).is_empty());
    assert_eq!(registry.match_topic(&Subject::new("a").unwrap()), vec![sid]);
    assert!(registry.is_empty());
}
