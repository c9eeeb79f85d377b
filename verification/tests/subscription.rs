use tokio::sync::mpsc;

use topiq::{Message, Subject, SubscriptionId, SubscriptionSender, TaggedMessage};

#[test]
fn subscription_sender_tags_messages() {
    let (tx, mut rx) = mpsc::channel(8);
    let sender = SubscriptionSender::new(SubscriptionId(42), tx);

    let msg = Message::new(Subject::new("test").unwrap(), b"data".to_vec());
    assert!(sender.try_send(msg));

    let (sid, received) = rx.try_recv().unwrap();
    assert_eq!(sid, SubscriptionId(42));
    assert_eq!(received.payload, b"data".to_vec());
}

#[test]
fn sender_detects_closed_channel() {
    let (tx, rx) = mpsc::channel::<TaggedMessage>(1);
    let sender = SubscriptionSender::new(SubscriptionId(1), tx);
    drop(rx);
    assert!(sender.is_closed());
}

#[test]
fn subscription_id_display() {
    assert_eq!(SubscriptionId(7).to_string(), "sub:7");
}

#[test]
fn full_channel_refuses_without_blocking() {
    let (tx, _rx) = mpsc::channel::<TaggedMessage>(1);
    let sender = SubscriptionSender::new(SubscriptionId(3), tx);
    let msg = Message::new(Subject::new("t").unwrap(), vec![1]);
    assert!(sender.try_send(msg.clone()));
    assert!(!sender.try_send(msg));
}

#[test]
fn clone_keeps_the_tag_and_channel() {
    let (tx, mut rx) = mpsc::channel::<TaggedMessage>(4);
    let sender = SubscriptionSender::new(SubscriptionId(9), tx);
    let copy = sender.clone();
    assert_eq!(copy.sid(), SubscriptionId(9));
    assert!(copy.try_send(Message::new(Subject::new("t").unwrap(), vec![])));
    assert_eq!(rx.try_recv().unwrap().0, SubscriptionId(9));
}

#[test]
fn tagged_carries_the_sender_id() {
    let (tx, _rx) = mpsc::channel::<TaggedMessage>(1);
    let sender = SubscriptionSender::new(SubscriptionId(7), tx);
    let msg = Message::new(Subject::new("a").unwrap(), vec![3]);
    let (sid, m) = sender.tagged(msg.clone());
    assert_eq!(sid, SubscriptionId(7));
    assert_eq!(m, msg);
}
