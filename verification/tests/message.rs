use topiq::{Message, Subject};

#[test]
fn new_message() {
    let msg = Message::new(Subject::new("test.topic").unwrap(), b"hello".to_vec());
    assert_eq!(msg.topic.as_str(), "test.topic");
    assert_eq!(msg.payload, b"hello".to_vec());
    assert!(msg.reply_to.is_none());
}

#[test]
fn message_with_reply() {
    let msg = Message::with_reply(
        Subject::new("request").unwrap(),
        b"ping".to_vec(),
        Subject::new("reply.inbox").unwrap(),
    );
    assert_eq!(msg.reply_to.unwrap().as_str(), "reply.inbox");
}

#[test]
fn payload_len() {
    let msg = Message::new(Subject::new("t").unwrap(), b"12345".to_vec());
    assert_eq!(msg.payload_len(), 5);
}

#[test]
fn clone_keeps_every_field() {
    let msg = Message::with_reply(
        Subject::new("a.b").unwrap(),
        vec![1, 2, 3],
        Subject::new("inbox").unwrap(),
    );
    let copy = msg.clone();
    assert_eq!(copy, msg);
}
