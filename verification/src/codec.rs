use vstd::prelude::*;

use crate::error::PubSubError;
use crate::frame::PROTOCOL_VERSION;
use crate::text::{decimal, push_decimal};

verus! {

/// Minimum frame body: 1 byte version + at least 1 byte msgpack.
pub const MIN_FRAME_BODY: usize = 2;

/// Header: 4 bytes for frame length.
pub const HEADER_LEN: usize = 4;

/// The number that the first four bytes of `b` encode, most significant first.
pub open spec fn be_u32_value(b: Seq<u8>) -> nat {
    b[0] as nat * 16777216 + b[1] as nat * 65536 + b[2] as nat * 256 + b[3] as nat
}

/// The four big-endian bytes of `n` modulo 2^32 (what `put_u32(n as u32)` writes).
pub open spec fn be_u32_bytes(n: nat) -> Seq<u8> {
    seq![
        ((n / 16777216) % 256) as u8,
        ((n / 65536) % 256) as u8,
        ((n / 256) % 256) as u8,
        (n % 256) as u8,
    ]
}

/// The bytes of one frame carrying the msgpack body `body`:
/// `[4B body length (big-endian)][1B version][body]`, where the length counts
/// the version byte and the body.
pub open spec fn frame_bytes(body: Seq<u8>) -> Seq<u8> {
    be_u32_bytes(body.len() + 1) + seq![PROTOCOL_VERSION] + body
}

/// What the decoder finds at the front of a buffer.
pub enum DecodeStep {
    /// Not a whole frame yet.
    NeedMore,
    /// The header announces a body shorter than `MIN_FRAME_BODY`.
    BodyTooSmall(u64),
    /// The header announces a body longer than the codec's limit.
    TooLarge(u64),
    /// A whole frame of the given body length whose version byte is wrong.
    BadVersion(u8, u64),
    /// A whole frame of the given body length (version byte included).
    Frame(u64),
}

/// The decoder's verdict on `buf` for frames of at most `max` body bytes.
pub open spec fn decode_step(max: usize, buf: Seq<u8>) -> DecodeStep {
    if buf.len() < HEADER_LEN {
        DecodeStep::NeedMore
    } else {
        let len = be_u32_value(buf);
        if len < MIN_FRAME_BODY {
            DecodeStep::BodyTooSmall(len as u64)
        } else if len > max {
            DecodeStep::TooLarge(len as u64)
        } else if buf.len() < HEADER_LEN + len {
            DecodeStep::NeedMore
        } else if buf[4] != PROTOCOL_VERSION {
            DecodeStep::BadVersion(buf[4], len as u64)
        } else {
            DecodeStep::Frame(len as u64)
        }
    }
}

proof fn lemma_be_u32_roundtrip(n: nat)
    requires
        n < 4294967296,
    ensures
        be_u32_value(be_u32_bytes(n)) == n,
{
    let b = be_u32_bytes(n);
    assert(b[0] as nat == (n / 16777216) % 256);
    assert(b[1] as nat == (n / 65536) % 256);
    assert(b[2] as nat == (n / 256) % 256);
    assert(b[3] as nat == n % 256);
    assert(((n / 16777216) % 256) * 16777216 + ((n / 65536) % 256) * 65536 + ((n / 256) % 256)
        * 256 + n % 256 == n) by (nonlinear_arith)
        requires
            n < 4294967296,
    ;
}

/// Decoding the bytes of a frame followed by anything finds that frame, and
/// what is left after the header and version byte is its body followed by the
/// rest: a body is read back as it was written, and frames written one after
/// another are read back one after another.
pub proof fn lemma_frame_roundtrip(max: usize, body: Seq<u8>, rest: Seq<u8>)
    requires
        1 <= body.len(),
        body.len() + 1 <= max,
        body.len() + 1 < 4294967296,
    ensures
        decode_step(max, frame_bytes(body) + rest) == DecodeStep::Frame((body.len() + 1) as u64),
        (frame_bytes(body) + rest).skip(HEADER_LEN + 1) == body + rest,
{
    let buf = frame_bytes(body) + rest;
    lemma_be_u32_roundtrip(body.len() + 1);
    let h = be_u32_bytes(body.len() + 1);
    assert(buf[0] == h[0] && buf[1] == h[1] && buf[2] == h[2] && buf[3] == h[3]);
    assert(be_u32_value(buf) == be_u32_value(h));
    assert(buf[4] == PROTOCOL_VERSION);
    assert(buf.skip(HEADER_LEN + 1) =~= body + rest);
}

/// The bytes of frames carrying the bodies `bodies`, one after another.
pub open spec fn frames_bytes(bodies: Seq<Seq<u8>>) -> Seq<u8>
    decreases bodies.len(),
{
    if bodies.len() == 0 {
        Seq::empty()
    } else {
        frame_bytes(bodies[0]) + frames_bytes(bodies.drop_first())
    }
}

/// The bodies that `n` successive reads take from `buf`: each read finds a
/// frame (as `decode_frame` does) and takes its body, and the reads stop at
/// anything that is not a whole, well-formed frame.
pub open spec fn decoded_bodies(max: usize, buf: Seq<u8>, n: nat) -> Seq<Seq<u8>>
    decreases n,
{
    if n == 0 {
        Seq::empty()
    } else {
        match decode_step(max, buf) {
            DecodeStep::Frame(len) => seq![buf.subrange(HEADER_LEN + 1, HEADER_LEN + len)]
                + decoded_bodies(max, buf.skip(HEADER_LEN + len), (n - 1) as nat),
            _ => Seq::empty(),
        }
    }
}

/// What is left of `buf` after `n` successive reads as in `decoded_bodies`.
pub open spec fn decoded_rest(max: usize, buf: Seq<u8>, n: nat) -> Seq<u8>
    decreases n,
{
    if n == 0 {
        buf
    } else {
        match decode_step(max, buf) {
            DecodeStep::Frame(len) => decoded_rest(max, buf.skip(HEADER_LEN + len), (n - 1) as nat),
            _ => buf,
        }
    }
}

/// Encoding one more frame appends its bytes: frames written one after
/// another (each `encode_frame` appending `frame_bytes`) give `frames_bytes`.
pub proof fn lemma_frames_bytes_push(bodies: Seq<Seq<u8>>, body: Seq<u8>)
    ensures
        frames_bytes(bodies.push(body)) == frames_bytes(bodies) + frame_bytes(body),
    decreases bodies.len(),
{
    if bodies.len() == 0 {
        let one = bodies.push(body);
        assert(one.drop_first() =~= Seq::<Seq<u8>>::empty());
        assert(one[0] == body);
        assert(frames_bytes(one.drop_first()) =~= Seq::<u8>::empty());
        assert(frames_bytes(bodies) =~= Seq::<u8>::empty());
        assert(frames_bytes(one) == frame_bytes(body) + frames_bytes(one.drop_first()));
        assert(frames_bytes(one) =~= frames_bytes(bodies) + frame_bytes(body));
    } else {
        lemma_frames_bytes_push(bodies.drop_first(), body);
        assert(bodies.push(body).drop_first() =~= bodies.drop_first().push(body));
        assert(bodies.push(body)[0] == bodies[0]);
        assert(frames_bytes(bodies.push(body)) =~= frames_bytes(bodies) + frame_bytes(body));
    }
}

/// Frames written one after another are read back one after another: `n`
/// reads of the bytes of `n` frames followed by anything give back the `n`
/// bodies in order and leave exactly what followed.
pub proof fn lemma_frames_roundtrip(max: usize, bodies: Seq<Seq<u8>>, rest: Seq<u8>)
    requires
        forall|i: int|
            0 <= i < bodies.len() ==> 1 <= (#[trigger] bodies[i]).len() && bodies[i].len() + 1
                <= max && bodies[i].len() + 1 < 4294967296,
    ensures
        decoded_bodies(max, frames_bytes(bodies) + rest, bodies.len()) == bodies,
        decoded_rest(max, frames_bytes(bodies) + rest, bodies.len()) == rest,
    decreases bodies.len(),
{
    let buf = frames_bytes(bodies) + rest;
    if bodies.len() == 0 {
        assert(buf =~= rest);
        assert(decoded_bodies(max, buf, 0) =~= bodies);
    } else {
        let b0 = bodies[0];
        let more = bodies.drop_first();
        let tail = frames_bytes(more) + rest;
        assert(buf =~= frame_bytes(b0) + tail);
        lemma_frame_roundtrip(max, b0, tail);
        let len = b0.len() + 1;
        assert(buf.skip(HEADER_LEN + 1) == b0 + tail);
        assert(buf.subrange(HEADER_LEN + 1, HEADER_LEN + len) =~= b0) by {
            assert forall|i: int| 0 <= i < b0.len() implies buf.subrange(HEADER_LEN + 1, HEADER_LEN + len)[i] == b0[i] by {
                assert(buf.skip(HEADER_LEN + 1)[i] == (b0 + tail)[i]);
            }
        }
        assert(buf.skip(HEADER_LEN + len) =~= tail) by {
            assert forall|i: int| 0 <= i < tail.len() implies buf.skip(HEADER_LEN + len)[i] == tail[i] by {
                assert(buf.skip(HEADER_LEN + 1)[b0.len() + i] == (b0 + tail)[b0.len() + i]);
            }
        }
        assert forall|i: int| 0 <= i < more.len() implies 1 <= (#[trigger] more[i]).len() && more[i].len() + 1
            <= max && more[i].len() + 1 < 4294967296 by {
            assert(more[i] == bodies[i + 1]);
        }
        lemma_frames_roundtrip(max, more, rest);
        assert(decoded_bodies(max, buf, bodies.len()) =~= seq![b0] + more);
        assert(seq![b0] + more =~= bodies);
    }
}

/// Only frames of this protocol version are read: a whole frame within the
/// limits is handed on exactly when its version byte is `PROTOCOL_VERSION`;
/// with any other version byte it is refused as unsupported, naming that
/// byte, and skipped whole.
pub proof fn lemma_version_decides(max: usize, buf: Seq<u8>)
    requires
        buf.len() >= HEADER_LEN,
        MIN_FRAME_BODY <= be_u32_value(buf) <= max,
        buf.len() >= HEADER_LEN + be_u32_value(buf),
    ensures
        decode_step(max, buf) is Frame <==> buf[4] == PROTOCOL_VERSION,
        buf[4] != PROTOCOL_VERSION ==> decode_step(max, buf) == DecodeStep::BadVersion(
            buf[4],
            be_u32_value(buf) as u64,
        ),
{
}

/// Codec for framing msgpack frame bodies on the wire.
///
/// Wire format: `[4B frame body length (big-endian)][1B version][N bytes msgpack Frame]`
///
/// The 4-byte length covers the version byte + msgpack body.
pub struct TopiqCodec {
    max_frame_size: usize,
}

impl TopiqCodec {
    /// The largest body length (version byte included) this codec accepts.
    pub closed spec fn limit(&self) -> usize {
        self.max_frame_size
    }

    pub fn new(max_frame_size: usize) -> (c: TopiqCodec)
        ensures
            c.limit() == max_frame_size,
    {
        TopiqCodec { max_frame_size }
    }

    /// Reads the frame at the front of `src`.
    ///
    /// On `Ok(Some(n))` the header and version byte have been consumed and the
    /// next `n` bytes of `src` are the msgpack body, left for the caller to
    /// deserialize and consume. A frame with a wrong version is consumed whole
    /// before the error is returned; on every other outcome `src` is unchanged.
    pub fn decode_frame(&mut self, src: &mut Vec<u8>) -> (r: Result<Option<usize>, PubSubError>)
        ensures
            final(self).limit() == old(self).limit(),
            match decode_step(old(self).limit(), old(src)@) {
                DecodeStep::NeedMore => r matches Ok(None) && final(src)@ == old(src)@,
                DecodeStep::BodyTooSmall(len) => r matches Err(PubSubError::Protocol(msg)) && msg@
                    == "frame body too small: "@ + decimal(len as nat) + " bytes"@ && final(src)@
                    == old(src)@,
                DecodeStep::TooLarge(len) => r matches Err(PubSubError::FrameTooLarge { size, max })
                    && size == len && max == old(self).limit() && final(src)@ == old(src)@,
                DecodeStep::BadVersion(v, len) => r matches Err(
                    PubSubError::UnsupportedVersion { version },
                ) && version == v && final(src)@ == old(src)@.skip(HEADER_LEN + len),
                DecodeStep::Frame(len) => r matches Ok(Some(n)) && n == len - 1 && final(src)@
                    == old(src)@.skip(HEADER_LEN + 1),
            },
            r matches Ok(Some(n)) ==> old(src)@.len() >= HEADER_LEN + 1 + n && old(src)@[4]
                == PROTOCOL_VERSION,
            r matches Err(PubSubError::UnsupportedVersion { version }) ==> old(src)@.len()
                > HEADER_LEN && version == old(src)@[4] && version != PROTOCOL_VERSION,
    {
        let n = src.len();
        if n < HEADER_LEN {
            return Ok(None);
        }
        let body_len: u64 = src[0] as u64 * 16777216 + src[1] as u64 * 65536 + src[2] as u64 * 256
            + src[3] as u64;
        if body_len < MIN_FRAME_BODY as u64 {
            let mut msg = String::from_str("frame body too small: ");
            push_decimal(&mut msg, body_len);
            msg.append(" bytes");
            return Err(PubSubError::Protocol(msg));
        }
        if body_len > self.max_frame_size as u64 {
            return Err(
                PubSubError::FrameTooLarge { size: body_len as usize, max: self.max_frame_size },
            );
        }
        let total: u64 = HEADER_LEN as u64 + body_len;
        if (n as u64) < total {
            return Ok(None);
        }
        let version = src[4];
        if version != PROTOCOL_VERSION {
            let rest = src.split_off(total as usize);
            *src = rest;
            return Err(PubSubError::UnsupportedVersion { version });
        }
        let rest = src.split_off(HEADER_LEN + 1);
        *src = rest;
        Ok(Some((body_len - 1) as usize))
    }

    /// Appends the frame carrying the msgpack body `body` to `dst`, or fails
    /// with `FrameTooLarge` (leaving `dst` alone) when the body with its
    /// version byte exceeds the codec's limit.
    pub fn encode_frame(&mut self, body: &[u8], dst: &mut Vec<u8>) -> (r: Result<(), PubSubError>)
        requires
            body@.len() < usize::MAX,
        ensures
            final(self).limit() == old(self).limit(),
            body@.len() + 1 > old(self).limit() ==> (r matches Err(
                PubSubError::FrameTooLarge { size, max },
            ) && size == body@.len() + 1 && max == old(self).limit() && final(dst)@ == old(dst)@),
            body@.len() + 1 <= old(self).limit() ==> (r matches Ok(()) && final(dst)@ == old(dst)@
                + frame_bytes(body@)),
    {
        let body_len = body.len() + 1;
        if body_len > self.max_frame_size {
            return Err(PubSubError::FrameTooLarge { size: body_len, max: self.max_frame_size });
        }
        let l: u64 = body_len as u64;
        let w: u64 = l % 4294967296;
        let ghost d0 = dst@;
        dst.push((w / 16777216) as u8);
        dst.push(((w / 65536) % 256) as u8);
        dst.push(((w / 256) % 256) as u8);
        dst.push((w % 256) as u8);
        dst.push(PROTOCOL_VERSION);
        let mut i: usize = 0;
        let ghost head = dst@;
        while i < body.len()
            invariant
                i <= body@.len(),
                dst@ == head + body@.take(i as int),
            decreases body@.len() - i,
        {
            dst.push(body[i]);
            i = i + 1;
            assert(dst@ =~= head + body@.take(i as int));
        }
        proof {
            let nn = body_len as nat;
            assert(w == nn % 4294967296);
            assert((w / 16777216) == (nn / 16777216) % 256) by (nonlinear_arith)
                requires
                    w == nn % 4294967296,
            ;
            assert((w / 65536) % 256 == (nn / 65536) % 256) by (nonlinear_arith)
                requires
                    w == nn % 4294967296,
            ;
            assert((w / 256) % 256 == (nn / 256) % 256) by (nonlinear_arith)
                requires
                    w == nn % 4294967296,
            ;
            assert(w % 256 == nn % 256) by (nonlinear_arith)
                requires
                    w == nn % 4294967296,
            ;
            assert(body@.take(body@.len() as int) =~= body@);
            assert(dst@ =~= d0 + frame_bytes(body@));
        }
        Ok(())
    }
}

} // verus!
