use tokio::sync::mpsc;

use topiq::{
    Message, Router, Subject, SubscriptionId, SubscriptionRegistry, SubscriptionSender,
    TaggedMessage,
};

fn make_sender(sid: SubscriptionId) -> (SubscriptionSender, mpsc::Receiver<TaggedMessage>) {
    let (tx, rx) = mpsc::channel(16);
    (SubscriptionSender::new(sid, tx), rx)
}

#[test]
fn route_to_single_subscriber() {
    let mut registry = SubscriptionRegistry::new();
    let mut router = Router::new();

    let sid = SubscriptionId(1);
    let (sender, mut rx) = make_sender(sid);
    registry.subscribe(Subject::new("test").unwrap(), None, sender);

    let msg = Message::new(Subject::new("test").unwrap(), b"hello".to_vec());
    let result = router.route(&registry, &msg);

    assert_eq!(result.matched, 1);
    assert_eq!(result.delivered, 1);
    assert_eq!(result.dropped, 0);

    let (recv_sid, recv_msg) = rx.try_recv().unwrap();
    assert_eq!(recv_sid, sid);
    assert_eq!(recv_msg.payload, b"hello".to_vec());
}

#[test]
fn route_fanout_to_multiple() {
    let mut registry = SubscriptionRegistry::new();
    let mut router = Router::new();

    let sid1 = SubscriptionId(1);
    let (sender1, mut rx1) = make_sender(sid1);
    let sid2 = SubscriptionId(2);
    let (sender2, mut rx2) = make_sender(sid2);

    registry.subscribe(Subject::new("test").unwrap(), None, sender1);
    registry.subscribe(Subject::new("test").unwrap(), None, sender2);

    let msg = Message::new(Subject::new("test").unwrap(), b"fan".to_vec());
    let result = router.route(&registry, &msg);

    assert_eq!(result.matched, 2);
    assert_eq!(result.delivered, 2);
    assert!(rx1.try_recv().is_ok());
    assert!(rx2.try_recv().is_ok());
}

#[test]
fn no_match_delivers_nothing() {
    let registry = SubscriptionRegistry::new();
    let mut router = Router::new();

    let msg = Message::new(Subject::new("nothing").unwrap(), b"data".to_vec());
    let result = router.route(&registry, &msg);

    assert_eq!(result.matched, 0);
    assert_eq!(result.delivered, 0);
}

#[test]
fn backpressure_drops_message() {
    let mut registry = SubscriptionRegistry::new();
    let mut router = Router::new();

    let sid = SubscriptionId(1);
    let (tx, _rx) = mpsc::channel(1); // buffer of 1
    let sender = SubscriptionSender::new(sid, tx);
    registry.subscribe(Subject::new("test").unwrap(), None, sender);

    let msg = Message::new(Subject::new("test").unwrap(), b"a".to_vec());

    // First should succeed.
    let r1 = router.route(&registry, &msg);
    assert_eq!(r1.delivered, 1);

    // Second should be dropped (buffer full).
    let r2 = router.route(&registry, &msg);
    assert_eq!(r2.dropped, 1);
}

#[test]
fn queue_group_delivers_to_one() {
    let mut registry = SubscriptionRegistry::new();
    let mut router = Router::new();

    let sid1 = SubscriptionId(1);
    let (sender1, mut rx1) = make_sender(sid1);
    let sid2 = SubscriptionId(2);
    let (sender2, mut rx2) = make_sender(sid2);

    registry.subscribe(Subject::new("work").unwrap(), Some("workers".into()), sender1);
    registry.subscribe(Subject::new("work").unwrap(), Some("workers".into()), sender2);

    let msg = Message::new(Subject::new("work").unwrap(), b"job".to_vec());
    let result = router.route(&registry, &msg);

    assert_eq!(result.matched, 2);
    assert_eq!(result.delivered, 1); // only one in queue group

    // Exactly one should have received it.
    let got1 = rx1.try_recv().is_ok();
    let got2 = rx2.try_recv().is_ok();
    assert!(got1 ^ got2);
}

#[test]
fn queue_group_rotates_between_members() {
    let mut registry = SubscriptionRegistry::new();
    let mut router = Router::new();
    let (s1, mut rx1) = make_sender(SubscriptionId(1));
    let (s2, mut rx2) = make_sender(SubscriptionId(2));
    registry.subscribe(Subject::new("jobs.*").unwrap(), Some("w".into()), s1);
    registry.subscribe(Subject::new("jobs.*").unwrap(), Some("w".into()), s2);
    for _ in 0..4 {
        let msg = Message::new(Subject::new("jobs.x").unwrap(), vec![0]);
        assert_eq!(router.route(&registry, &msg).delivered, 1);
    }
    let mut n1 = 0;
    while rx1.try_recv().is_ok() {
        n1 += 1;
    }
    let mut n2 = 0;
    while rx2.try_recv().is_ok() {
        n2 += 1;
    }
    assert_eq!((n1, n2), (2, 2));
}

#[test]
fn plan_lists_direct_subscribers_then_one_per_group() {
    let mut registry = SubscriptionRegistry::new();
    let mut router = Router::new();
    let (a, _ra) = make_sender(SubscriptionId(1));
    let (b, _rb) = make_sender(SubscriptionId(2));
    let (c, _rc) = make_sender(SubscriptionId(3));
    let (d, _rd) = make_sender(SubscriptionId(4));
    registry.subscribe(Subject::new("t").unwrap(), Some("g".into()), a);
    registry.subscribe(Subject::new("t").unwrap(), None, b);
    registry.subscribe(Subject::new("t").unwrap(), Some("g".into()), c);
    registry.subscribe(Subject::new("t").unwrap(), Some("h".into()), d);
    let matching = vec![SubscriptionId(1), SubscriptionId(2), SubscriptionId(3), SubscriptionId(4), SubscriptionId(9)];
    let targets = router.plan_deliveries(&registry, &matching);
    let ids: Vec<u64> = targets.iter().map(|s| s.sid().0).collect();
    // direct 2, then group g picks index 0 (its counter 0), group h index 0.
    assert_eq!(ids, vec![2, 1, 4]);
    let targets = router.plan_deliveries(&registry, &matching);
    let ids: Vec<u64> = targets.iter().map(|s| s.sid().0).collect();
    // g's own counter is now 1: it picks index 1; h has one member.
    assert_eq!(ids, vec![2, 3, 4]);
    // Routes that reach only h leave g's turn alone.
    let _ = router.plan_deliveries(&registry, &vec![SubscriptionId(4)]);
    let _ = router.plan_deliveries(&registry, &vec![SubscriptionId(4)]);
    let targets = router.plan_deliveries(&registry, &matching);
    let ids: Vec<u64> = targets.iter().map(|s| s.sid().0).collect();
    // g's counter is now 2: index 0 again.
    assert_eq!(ids, vec![2, 1, 4]);
}

#[test]
fn each_queue_group_keeps_its_own_turn() {
    let mut registry = SubscriptionRegistry::new();
    let mut router = Router::new();
    let (a, mut ra) = make_sender(SubscriptionId(1));
    let (b, mut rb) = make_sender(SubscriptionId(2));
    let (c, _rc) = make_sender(SubscriptionId(3));
    registry.subscribe(Subject::new("t").unwrap(), Some("g".into()), a);
    registry.subscribe(Subject::new("t").unwrap(), Some("g".into()), b);
    registry.subscribe(Subject::new("u").unwrap(), Some("h".into()), c);
    let on = |topic: &str| Message::new(Subject::new(topic).unwrap(), vec![1]);
    router.route(&registry, &on("t"));
    router.route(&registry, &on("u"));
    router.route(&registry, &on("t"));
    let mut got_a = 0;
    while ra.try_recv().is_ok() {
        got_a += 1;
    }
    let mut got_b = 0;
    while rb.try_recv().is_ok() {
        got_b += 1;
    }
    assert_eq!((got_a, got_b), (1, 1));
}
