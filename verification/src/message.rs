use vstd::prelude::*;

use crate::topic::Subject;

verus! {

/// A message flowing through the pub/sub system.
///
/// Payloads are opaque bytes -- the broker never inspects them.
#[derive(Debug, PartialEq, Eq)]
pub struct Message {
    pub topic: Subject,
    pub payload: Vec<u8>,
    pub reply_to: Option<Subject>,
}

impl View for Message {
    /// The topic text, the payload bytes and the reply subject text.
    type V = (Seq<char>, Seq<u8>, Option<Seq<char>>);

    open spec fn view(&self) -> (Seq<char>, Seq<u8>, Option<Seq<char>>) {
        (
            self.topic@,
            self.payload@,
            match self.reply_to {
                Some(r) => Some(r@),
                None => None,
            },
        )
    }
}

impl Message {
    pub fn new(topic: Subject, payload: Vec<u8>) -> (m: Message)
        ensures
            m.topic == topic,
            m.payload@ == payload@,
            m.reply_to is None,
    {
        Message { topic, payload, reply_to: None }
    }

    pub fn with_reply(topic: Subject, payload: Vec<u8>, reply_to: Subject) -> (m: Message)
        ensures
            m.topic == topic,
            m.payload@ == payload@,
            m.reply_to == Some(reply_to),
    {
        Message { topic, payload, reply_to: Some(reply_to) }
    }

    pub fn payload_len(&self) -> (n: usize)
        ensures
            n == self.payload@.len(),
    {
        self.payload.len()
    }
}

impl Clone for Message {
    fn clone(&self) -> (c: Self)
        ensures
            c@ == self@,
            c.topic@ == self.topic@,
            c.payload@ == self.payload@,
            match (c.reply_to, self.reply_to) {
                (Some(a), Some(b)) => a@ == b@,
                (None, None) => true,
                _ => false,
            },
    {
        let mut payload: Vec<u8> = Vec::new();
        let mut i: usize = 0;
        while i < self.payload.len()
            invariant
                i <= self.payload@.len(),
                payload@ == self.payload@.take(i as int),
            decreases self.payload@.len() - i,
        {
            payload.push(self.payload[i]);
            i = i + 1;
            assert(payload@ =~= self.payload@.take(i as int));
        }
        assert(self.payload@.take(self.payload@.len() as int) =~= self.payload@);
        let reply_to = match &self.reply_to {
            Some(r) => Some(r.clone()),
            None => None,
        };
        Message { topic: self.topic.clone(), payload, reply_to }
    }
}

} // verus!
