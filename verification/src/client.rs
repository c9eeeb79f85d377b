use vstd::prelude::*;

use crate::error::PubSubError;
use crate::frame::Frame;
use crate::message::Message;
use crate::registry::opt_string_view;
use crate::text::{decimal, is_digit, lemma_decimal_digits, lemma_decimal_injective, lemma_decimal_len_u64, push_decimal};
use crate::topic::{
    full_wildcard_token, has_wildcard_char, is_valid_subject, lemma_split_at_dot,
    lemma_split_no_dot_text, lemma_subject_error_iff_invalid, split_dots, subject_error, utf8_len,
    Subject,
};
use vstd::utf8::{is_ascii_chars, is_ascii_chars_encode_utf8};

verus! {

/// The inbox subject for request number `id`: `_INBOX.<id>`, a valid
/// subject without wildcards.
pub fn new_inbox(id: u64) -> (s: String)
    ensures
        s@ == "_INBOX."@ + decimal(id as nat),
        subject_error(s@) is None,
        !has_wildcard_char(s@),
{
    proof {
        lemma_inbox_is_plain_subject(id);
    }
    let mut s = String::from_str("_INBOX.");
    push_decimal(&mut s, id);
    s
}

/// `_INBOX.<id>` is a valid subject of two tokens, without wildcards.
proof fn lemma_inbox_is_plain_subject(id: u64)
    ensures
        subject_error("_INBOX."@ + decimal(id as nat)) is None,
        !has_wildcard_char("_INBOX."@ + decimal(id as nat)),
{
    reveal_strlit("_INBOX.");
    let pre = seq!['_', 'I', 'N', 'B', 'O', 'X'];
    let d = decimal(id as nat);
    let s = "_INBOX."@ + d;
    assert("_INBOX."@ =~= pre + seq!['.']);
    assert(s =~= pre + seq!['.'] + d);
    lemma_decimal_digits(id as nat);
    lemma_decimal_len_u64(id);
    assert(!pre.contains('.'));
    if d.contains('.') {
        let i = choose|i: int| 0 <= i < d.len() && d[i] == '.';
        assert(is_digit(d[i]));
    }
    lemma_split_no_dot_text(pre);
    lemma_split_no_dot_text(d);
    lemma_split_at_dot(pre, d);
    let toks = split_dots(s);
    assert(toks =~= seq![pre, d]);
    assert forall|i: int| 0 <= i < s.len() implies '\0' <= #[trigger] s[i] && s[i] <= '\u{7f}' && s[i] != '*' && s[i] != '>' by {
        if i >= 7 {
            assert(s[i] == d[i - 7]);
            assert(is_digit(d[i - 7]));
        }
    }
    assert(is_ascii_chars(s));
    is_ascii_chars_encode_utf8(s);
    assert(utf8_len(s) == s.len());
    if d == full_wildcard_token() {
        assert(is_digit(d[0]));
    }
    if has_wildcard_char(d) {
        if d.contains('*') {
            let i = choose|i: int| 0 <= i < d.len() && d[i] == '*';
            assert(is_digit(d[i]));
        } else {
            let i = choose|i: int| 0 <= i < d.len() && d[i] == '>';
            assert(is_digit(d[i]));
        }
    }
    assert(!pre.contains('*') && !pre.contains('>'));
    assert(pre != full_wildcard_token());
    assert(toks[0] == pre && toks[1] == d);
    assert(is_valid_subject(s));
    lemma_subject_error_iff_invalid(s);
    if s.contains('*') {
        let i = choose|i: int| 0 <= i < s.len() && s[i] == '*';
        assert(s[i] != '*');
    }
    if s.contains('>') {
        let i = choose|i: int| 0 <= i < s.len() && s[i] == '>';
        assert(s[i] != '>');
    }
}

/// Different request numbers get different inbox subjects.
pub proof fn lemma_inbox_distinct(a: u64, b: u64)
    requires
        a != b,
    ensures
        "_INBOX."@ + decimal(a as nat) != "_INBOX."@ + decimal(b as nat),
{
    reveal_strlit("_INBOX.");
    let sa = "_INBOX."@ + decimal(a as nat);
    let sb = "_INBOX."@ + decimal(b as nat);
    if sa == sb {
        assert(sa.skip(7) =~= decimal(a as nat));
        assert(sb.skip(7) =~= decimal(b as nat));
        lemma_decimal_injective(a as nat, b as nat);
    }
}

/// The frame that publishes `payload` to `topic`, with `reply_to` as the
/// reply subject when given.
pub fn publish_frame(topic: &str, payload: &[u8], reply_to: Option<&str>) -> (f: Frame)
    ensures
        f matches Frame::Publish { topic: t, payload: p, reply_to: r } && t@ == topic@ && p@
            == payload@ && opt_string_view(r) == match reply_to {
            Some(x) => Some(x@),
            None => None,
        },
{
    let mut bytes: Vec<u8> = Vec::new();
    let mut i: usize = 0;
    while i < payload.len()
        invariant
            i <= payload@.len(),
            bytes@ == payload@.take(i as int),
        decreases payload@.len() - i,
    {
        bytes.push(payload[i]);
        i = i + 1;
        assert(bytes@ =~= payload@.take(i as int));
    }
    assert(payload@.take(payload@.len() as int) =~= payload@);
    let r = match reply_to {
        Some(x) => Some(x.to_owned()),
        None => None,
    };
    Frame::Publish { topic: topic.to_owned(), payload: bytes, reply_to: r }
}

/// The frame that subscribes the client's `sid` to `subject`, optionally in
/// a queue group; refused, with the subject's error, when `subject` is not a
/// valid subject.
pub fn subscribe_frame(sid: u64, subject: &str, queue_group: Option<String>) -> (r: Result<
    Frame,
    PubSubError,
>)
    ensures
        match subject_error(subject@) {
            Some(why) => r matches Err(PubSubError::InvalidSubject { reason }) && reason@ == why,
            None => r matches Ok(Frame::Subscribe { sid: s, subject: subj, queue_group: g }) && s
                == sid && subj@ == subject@ && g == queue_group,
        },
{
    match Subject::new(subject) {
        Ok(_) => Ok(Frame::Subscribe { sid, subject: subject.to_owned(), queue_group }),
        Err(e) => Err(e),
    }
}

/// What the client does with a frame from the broker.
pub enum ClientAction {
    /// Hand the message to the subscription with this sid.
    Deliver { sid: u64, message: Message },
    /// Answer a keepalive ping.
    SendPong,
    /// Report an error the broker sent.
    ServerError { message: String },
    /// Nothing to do.
    Ignore,
}

/// Decides what the client does with `frame`: a message whose topic is a
/// valid subject is delivered (its reply subject kept only when valid), a
/// ping is answered, a broker error is reported, and anything else is
/// ignored.
pub fn inbound_action(frame: Frame) -> (a: ClientAction)
    ensures
        match frame {
            Frame::Message { topic, sid, payload, reply_to } => if subject_error(topic@) is None {
                a matches ClientAction::Deliver { sid: s, message } && s == sid && message.topic@
                    == topic@ && message.payload@ == payload@ && match reply_to {
                    Some(r) => if subject_error(r@) is None {
                        message.reply_to matches Some(rs) && rs@ == r@
                    } else {
                        message.reply_to is None
                    },
                    None => message.reply_to is None,
                }
            } else {
                a is Ignore
            },
            Frame::Ping => a is SendPong,
            Frame::ErrReply { message } => a matches ClientAction::ServerError { message: m } && m
                == message,
            _ => a is Ignore,
        },
{
    match frame {
        Frame::Message { topic, sid, payload, reply_to } => {
            let subject = match Subject::new(topic.as_str()) {
                Ok(s) => s,
                Err(_) => {
                    return ClientAction::Ignore;
                },
            };
            let reply_subject = match reply_to {
                Some(r) => match Subject::new(r.as_str()) {
                    Ok(rs) => Some(rs),
                    Err(_) => None,
                },
                None => None,
            };
            let message = match reply_subject {
                Some(reply) => Message::with_reply(subject, payload, reply),
                None => Message::new(subject, payload),
            };
            ClientAction::Deliver { sid, message }
        },
        Frame::Ping => ClientAction::SendPong,
        Frame::ErrReply { message } => ClientAction::ServerError { message },
        _ => ClientAction::Ignore,
    }
}

/// The outcome of a request from what waiting for the reply gave: `None`
/// when the wait timed out, `Some(None)` when the subscription closed first.
pub fn request_outcome(waited: Option<Option<Message>>) -> (r: Result<Message, PubSubError>)
    ensures
        match waited {
            Some(Some(m)) => r == Ok::<Message, PubSubError>(m),
            Some(None) => r matches Err(PubSubError::ConnectionClosed),
            None => r matches Err(PubSubError::Timeout),
        },
{
    match waited {
        Some(Some(m)) => Ok(m),
        Some(None) => Err(PubSubError::ConnectionClosed),
        None => Err(PubSubError::Timeout),
    }
}

} // verus!
