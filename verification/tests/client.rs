use topiq::client::{inbound_action, new_inbox, publish_frame, request_outcome, subscribe_frame, ClientAction};
use topiq::{Frame, Message, PubSubError, Subject};

#[test]
fn inbox_subjects_are_numbered() {
    assert_eq!(new_inbox(0), "_INBOX.0");
    assert_eq!(new_inbox(1234567), "_INBOX.1234567");
    assert!(Subject::new(&new_inbox(u64::MAX)).is_ok());
}

#[test]
fn messages_with_valid_topics_are_delivered() {
    let frame = Frame::Message {
        topic: "a.b".into(),
        sid: 4,
        payload: b"x".to_vec(),
        reply_to: Some("inbox.1".into()),
    };
    match inbound_action(frame) {
        ClientAction::Deliver { sid, message } => {
            assert_eq!(sid, 4);
            assert_eq!(message.topic.as_str(), "a.b");
            assert_eq!(message.payload, b"x".to_vec());
            assert_eq!(message.reply_to.unwrap().as_str(), "inbox.1");
        }
        _ => panic!("expected a delivery"),
    }
}

#[test]
fn invalid_reply_subject_is_dropped_and_invalid_topic_ignored() {
    let frame = Frame::Message { topic: "a".into(), sid: 1, payload: vec![], reply_to: Some("..".into()) };
    match inbound_action(frame) {
        ClientAction::Deliver { message, .. } => assert!(message.reply_to.is_none()),
        _ => panic!("expected a delivery"),
    }
    let frame = Frame::Message { topic: "a..b".into(), sid: 1, payload: vec![], reply_to: None };
    assert!(matches!(inbound_action(frame), ClientAction::Ignore));
}

#[test]
fn pings_errors_and_others() {
    assert!(matches!(inbound_action(Frame::Ping), ClientAction::SendPong));
    assert!(matches!(inbound_action(Frame::OkReply), ClientAction::Ignore));
    assert!(matches!(inbound_action(Frame::Pong), ClientAction::Ignore));
    match inbound_action(Frame::ErrReply { message: "boom".into() }) {
        ClientAction::ServerError { message } => assert_eq!(message, "boom"),
        _ => panic!("expected an error report"),
    }
}

#[test]
fn request_outcomes() {
    let m = Message::new(Subject::new("r").unwrap(), vec![9]);
    assert_eq!(request_outcome(Some(Some(m.clone()))).unwrap(), m);
    assert!(matches!(request_outcome(Some(None)), Err(PubSubError::ConnectionClosed)));
    assert!(matches!(request_outcome(None), Err(PubSubError::Timeout)));
}

#[test]
fn subscribe_frames_are_checked_locally() {
    assert_eq!(
        subscribe_frame(3, "a.*", Some("q".into())).unwrap(),
        Frame::Subscribe { sid: 3, subject: "a.*".into(), queue_group: Some("q".into()) }
    );
    assert!(matches!(
        subscribe_frame(3, "", None),
        Err(PubSubError::InvalidSubject { .. })
    ));
}

#[test]
fn publish_frames_copy_the_payload() {
    assert_eq!(
        publish_frame("t", b"abc", Some("inbox")),
        Frame::Publish { topic: "t".into(), payload: b"abc".to_vec(), reply_to: Some("inbox".into()) }
    );
    assert_eq!(
        publish_frame("t", b"", None),
        Frame::Publish { topic: "t".into(), payload: vec![], reply_to: None }
    );
}

#[test]
fn inbox_subjects_are_distinct_plain_subjects() {
    let a = Subject::new(&new_inbox(41)).unwrap();
    let b = Subject::new(&new_inbox(42)).unwrap();
    assert!(!a.is_wildcard() && !b.is_wildcard());
    assert_ne!(a.as_str(), b.as_str());
}
