use tokio::sync::mpsc;

use topiq::{
    Frame, PubSubError, Router, SessionState, SubscriptionRegistry, TaggedMessage,
};

struct Broker {
    registry: SubscriptionRegistry,
    router: Router,
}

impl Broker {
    fn new() -> Self {
        Broker { registry: SubscriptionRegistry::new(), router: Router::new() }
    }
}

struct Conn {
    state: SessionState,
    tx: mpsc::Sender<TaggedMessage>,
    rx: mpsc::Receiver<TaggedMessage>,
}

impl Conn {
    fn new(max_subscriptions: usize) -> Self {
        let (tx, rx) = mpsc::channel(64);
        Conn { state: SessionState::new(max_subscriptions), tx, rx }
    }

    fn handle(&mut self, broker: &mut Broker, frame: Frame) -> Result<Option<Frame>, PubSubError> {
        self.state.handle_frame(&mut broker.router, &mut broker.registry, frame, self.tx.clone())
    }

    fn next_outbound(&mut self) -> Option<Frame> {
        while let Ok(tagged) = self.rx.try_recv() {
            if let Some(f) = self.state.outbound_frame(tagged) {
                return Some(f);
            }
        }
        None
    }
}

fn publish(topic: &str, payload: &[u8]) -> Frame {
    Frame::Publish { topic: topic.into(), payload: payload.to_vec(), reply_to: None }
}

fn subscribe(sid: u64, subject: &str) -> Frame {
    Frame::Subscribe { sid, subject: subject.into(), queue_group: None }
}

fn payload_of(f: Frame) -> Vec<u8> {
    match f {
        Frame::Message { payload, .. } => payload,
        other => panic!("not a message: {:?}", other),
    }
}

#[test]
fn basic_pub_sub() {
    let mut broker = Broker::new();
    let mut conn = Conn::new(1024);
    assert_eq!(conn.handle(&mut broker, subscribe(1, "test.topic")).unwrap(), Some(Frame::OkReply));
    assert_eq!(conn.handle(&mut broker, publish("test.topic", b"hello world")).unwrap(), None);
    match conn.next_outbound().unwrap() {
        Frame::Message { topic, sid, payload, reply_to } => {
            assert_eq!(topic, "test.topic");
            assert_eq!(sid, 1);
            assert_eq!(payload, b"hello world".to_vec());
            assert_eq!(reply_to, None);
        }
        other => panic!("unexpected {:?}", other),
    }
}

#[test]
fn wildcard_star_subscription() {
    let mut broker = Broker::new();
    let mut conn = Conn::new(1024);
    conn.handle(&mut broker, subscribe(1, "sensors.*.room1")).unwrap();
    conn.handle(&mut broker, publish("sensors.temp.room1", b"25")).unwrap();
    conn.handle(&mut broker, publish("sensors.humidity.room1", b"60")).unwrap();
    conn.handle(&mut broker, publish("sensors.temp.room2", b"30")).unwrap();
    assert_eq!(payload_of(conn.next_outbound().unwrap()), b"25".to_vec());
    assert_eq!(payload_of(conn.next_outbound().unwrap()), b"60".to_vec());
    assert!(conn.next_outbound().is_none(), "should not receive non-matching message");
}

#[test]
fn wildcard_gt_subscription() {
    let mut broker = Broker::new();
    let mut conn = Conn::new(1024);
    conn.handle(&mut broker, subscribe(1, "events.>")).unwrap();
    conn.handle(&mut broker, publish("events.user.login", b"alice")).unwrap();
    conn.handle(&mut broker, publish("events.system", b"startup")).unwrap();
    match conn.next_outbound().unwrap() {
        Frame::Message { topic, .. } => assert_eq!(topic, "events.user.login"),
        other => panic!("unexpected {:?}", other),
    }
    match conn.next_outbound().unwrap() {
        Frame::Message { topic, .. } => assert_eq!(topic, "events.system"),
        other => panic!("unexpected {:?}", other),
    }
}

#[test]
fn multiple_subscribers_fanout() {
    let mut broker = Broker::new();
    let mut c1 = Conn::new(1024);
    let mut c2 = Conn::new(1024);
    let mut publisher = Conn::new(1024);
    c1.handle(&mut broker, subscribe(1, "news")).unwrap();
    c2.handle(&mut broker, subscribe(1, "news")).unwrap();
    publisher.handle(&mut broker, publish("news", b"breaking")).unwrap();
    assert_eq!(payload_of(c1.next_outbound().unwrap()), b"breaking".to_vec());
    assert_eq!(payload_of(c2.next_outbound().unwrap()), b"breaking".to_vec());
    assert!(publisher.next_outbound().is_none());
}

#[test]
fn unsubscribe_stops_messages() {
    let mut broker = Broker::new();
    let mut conn = Conn::new(1024);
    conn.handle(&mut broker, subscribe(7, "test")).unwrap();
    conn.handle(&mut broker, publish("test", b"before")).unwrap();
    assert_eq!(payload_of(conn.next_outbound().unwrap()), b"before".to_vec());
    assert_eq!(
        conn.handle(&mut broker, Frame::Unsubscribe { sid: 7 }).unwrap(),
        Some(Frame::OkReply)
    );
    conn.handle(&mut broker, publish("test", b"after")).unwrap();
    assert!(conn.next_outbound().is_none(), "should not receive after unsubscribe");
    assert!(broker.registry.is_empty());
}

#[test]
fn publish_with_reply_to() {
    let mut broker = Broker::new();
    let mut conn = Conn::new(1024);
    conn.handle(&mut broker, subscribe(1, "request")).unwrap();
    conn.handle(
        &mut broker,
        Frame::Publish {
            topic: "request".into(),
            payload: b"ping".to_vec(),
            reply_to: Some("reply.inbox".into()),
        },
    )
    .unwrap();
    match conn.next_outbound().unwrap() {
        Frame::Message { topic, payload, reply_to, .. } => {
            assert_eq!(topic, "request");
            assert_eq!(payload, b"ping".to_vec());
            assert_eq!(reply_to, Some("reply.inbox".to_string()));
        }
        other => panic!("unexpected {:?}", other),
    }
}

#[test]
fn connection_cleanup_on_disconnect() {
    let mut broker = Broker::new();
    {
        let mut conn = Conn::new(1024);
        conn.handle(&mut broker, subscribe(1, "ephemeral")).unwrap();
        conn.handle(&mut broker, subscribe(2, "other.>")).unwrap();
        assert_eq!(broker.registry.len(), 2);
        conn.state.cleanup(&mut broker.registry);
    }
    assert!(broker.registry.is_empty());
    let mut conn2 = Conn::new(1024);
    assert_eq!(conn2.handle(&mut broker, publish("ephemeral", b"data")).unwrap(), None);
    assert!(conn2.next_outbound().is_none());
}

#[test]
fn ping_is_answered_and_pong_accepted() {
    let mut broker = Broker::new();
    let mut conn = Conn::new(1024);
    assert_eq!(conn.handle(&mut broker, Frame::Ping).unwrap(), Some(Frame::Pong));
    assert_eq!(conn.handle(&mut broker, Frame::Pong).unwrap(), None);
}

#[test]
fn broker_only_frames_are_refused() {
    let mut broker = Broker::new();
    let mut conn = Conn::new(1024);
    let cases = vec![
        (
            Frame::Message { topic: "a".into(), sid: 1, payload: vec![], reply_to: None },
            "unexpected frame from client: Discriminant(3)",
        ),
        (Frame::OkReply, "unexpected frame from client: Discriminant(6)"),
        (
            Frame::ErrReply { message: "x".into() },
            "unexpected frame from client: Discriminant(7)",
        ),
    ];
    for (frame, text) in cases {
        match conn.handle(&mut broker, frame) {
            Err(PubSubError::Protocol(msg)) => assert_eq!(msg, text),
            other => panic!("unexpected {:?}", other),
        }
    }
}

#[test]
fn subscription_limit_is_enforced() {
    let mut broker = Broker::new();
    let mut conn = Conn::new(2);
    conn.handle(&mut broker, subscribe(1, "a")).unwrap();
    conn.handle(&mut broker, subscribe(2, "b")).unwrap();
    match conn.handle(&mut broker, subscribe(3, "c")) {
        Err(PubSubError::Protocol(msg)) => assert_eq!(msg, "subscription limit reached (max 2)"),
        other => panic!("unexpected {:?}", other),
    }
    assert_eq!(broker.registry.len(), 2);
    let mut unlimited = Conn::new(0);
    for sid in 0..5 {
        unlimited.handle(&mut broker, subscribe(sid, "z")).unwrap();
    }
    assert_eq!(broker.registry.len(), 7);
}

#[test]
fn invalid_subjects_are_refused() {
    let mut broker = Broker::new();
    let mut conn = Conn::new(1024);
    match conn.handle(&mut broker, subscribe(1, "a..b")) {
        Err(PubSubError::InvalidSubject { reason }) => {
            assert_eq!(reason, "subject cannot contain empty tokens (double dots)")
        }
        other => panic!("unexpected {:?}", other),
    }
    match conn.handle(&mut broker, publish("a..b", b"x")) {
        Err(PubSubError::InvalidSubject { .. }) => {}
        other => panic!("unexpected {:?}", other),
    }
    // Wildcards are only valid on the subscriber side.
    for topic in ["a.*", "a.>", ">"] {
        match conn.handle(&mut broker, publish(topic, b"x")) {
            Err(PubSubError::InvalidSubject { reason }) => {
                assert_eq!(reason, "cannot publish to a wildcard subject")
            }
            other => panic!("unexpected {:?}", other),
        }
    }
    let bad_reply = Frame::Publish {
        topic: "a".into(),
        payload: vec![],
        reply_to: Some(".r".into()),
    };
    match conn.handle(&mut broker, bad_reply) {
        Err(PubSubError::InvalidSubject { reason }) => {
            assert_eq!(reason, "subject cannot start or end with '.'")
        }
        other => panic!("unexpected {:?}", other),
    }
    assert!(broker.registry.is_empty());
}

#[test]
fn unknown_unsubscribe_is_acknowledged() {
    let mut broker = Broker::new();
    let mut conn = Conn::new(1024);
    assert_eq!(
        conn.handle(&mut broker, Frame::Unsubscribe { sid: 42 }).unwrap(),
        Some(Frame::OkReply)
    );
}

#[test]
fn routing_result_counts_publish() {
    let mut broker = Broker::new();
    let mut conn = Conn::new(1024);
    conn.handle(&mut broker, subscribe(1, "x.*")).unwrap();
    conn.handle(&mut broker, subscribe(2, "x.>")).unwrap();
    let res = conn
        .state
        .handle_publish(&mut broker.router, &broker.registry, "x.y".into(), vec![1], None)
        .unwrap();
    assert_eq!((res.matched, res.delivered, res.dropped), (2, 2, 0));
}
