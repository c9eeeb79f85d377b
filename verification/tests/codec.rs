use topiq::{PubSubError, TopiqCodec, PROTOCOL_VERSION};

fn codec() -> TopiqCodec {
    TopiqCodec::new(64 * 1024)
}

/// A msgpack body standing for a frame: the variant name and its fields.
fn body_of<T: serde::Serialize>(value: &T) -> Vec<u8> {
    rmp_serde::to_vec(value).unwrap()
}

fn encode_body(body: &[u8]) -> Vec<u8> {
    let mut codec = codec();
    let mut buf = Vec::new();
    codec.encode_frame(body, &mut buf).unwrap();
    buf
}

/// Decodes one frame and takes its body off the front of `buf`, as a reader
/// does once the body has been deserialized.
fn decode_body(codec: &mut TopiqCodec, buf: &mut Vec<u8>) -> Option<Vec<u8>> {
    match codec.decode_frame(buf).unwrap() {
        Some(n) => {
            let body: Vec<u8> = buf.drain(..n).collect();
            Some(body)
        }
        None => None,
    }
}

#[test]
fn roundtrip_through_codec() {
    let body = body_of(&("Publish", "test", b"hello".to_vec(), None::<String>));
    let mut buf = encode_body(&body);
    let mut codec = codec();
    let decoded = decode_body(&mut codec, &mut buf).unwrap();
    assert_eq!(decoded, body);
    assert!(buf.is_empty());
}

#[test]
fn partial_frame_returns_none() {
    let full = encode_body(&body_of(&"Ping"));

    let mut codec = codec();

    // Feed only partial data.
    let mut partial = full[..2].to_vec();
    assert!(codec.decode_frame(&mut partial).unwrap().is_none());

    // Feed all but last byte.
    let mut almost = full[..full.len() - 1].to_vec();
    assert!(codec.decode_frame(&mut almost).unwrap().is_none());
    assert_eq!(almost, full[..full.len() - 1].to_vec());
}

#[test]
fn complete_frame_after_buffering() {
    let body = body_of(&"Pong");
    let full = encode_body(&body);

    let mut codec = codec();
    let mut buf = Vec::new();

    // Feed byte by byte.
    for &b in full.iter() {
        buf.push(b);
        if buf.len() < full.len() {
            assert!(codec.decode_frame(&mut buf).unwrap().is_none());
        }
    }

    let decoded = decode_body(&mut codec, &mut buf).unwrap();
    assert_eq!(decoded, body);
}

#[test]
fn oversized_frame_rejected_on_decode() {
    let body = body_of(&("Publish", "t", vec![0u8; 100], None::<String>));
    let mut buf = encode_body(&body);

    // Use a codec with tiny max.
    let mut small_codec = TopiqCodec::new(10);
    let result = small_codec.decode_frame(&mut buf);
    assert!(result.is_err());
}

#[test]
fn oversized_frame_rejected_on_encode() {
    let body = body_of(&("Publish", "t", vec![0u8; 100], None::<String>));

    let mut small_codec = TopiqCodec::new(10);
    let mut buf = Vec::new();
    let result = small_codec.encode_frame(&body, &mut buf);
    assert!(result.is_err());
    assert!(buf.is_empty());
}

#[test]
fn version_mismatch_rejected() {
    let mut buf = encode_body(&body_of(&"Ping"));
    let next = encode_body(&body_of(&"Pong"));
    buf.extend_from_slice(&next);

    // Corrupt the version byte (byte index 4).
    buf[4] = 99;

    let mut codec = codec();
    let result = codec.decode_frame(&mut buf);
    assert!(matches!(
        result,
        Err(PubSubError::UnsupportedVersion { version: 99 })
    ));
    // The bad frame is skipped whole; the next one is intact.
    assert_eq!(buf, next);
    assert_eq!(decode_body(&mut codec, &mut buf).unwrap(), body_of(&"Pong"));
}

#[test]
fn multiple_frames_in_buffer() {
    let f1 = body_of(&"Ping");
    let f2 = body_of(&"Pong");
    let f3 = body_of(&"Ok");

    let mut buf = Vec::new();
    let mut codec = codec();
    codec.encode_frame(&f1, &mut buf).unwrap();
    codec.encode_frame(&f2, &mut buf).unwrap();
    codec.encode_frame(&f3, &mut buf).unwrap();

    assert_eq!(decode_body(&mut codec, &mut buf).unwrap(), f1);
    assert_eq!(decode_body(&mut codec, &mut buf).unwrap(), f2);
    assert_eq!(decode_body(&mut codec, &mut buf).unwrap(), f3);
    assert!(codec.decode_frame(&mut buf).unwrap().is_none());
}

#[test]
fn all_frame_variants_through_codec() {
    let frames = vec![
        body_of(&("Publish", "a.b", b"data".to_vec(), Some("inbox"))),
        body_of(&("Subscribe", 1u64, "a.>", Some("q"))),
        body_of(&("Unsubscribe", 1u64)),
        body_of(&("Message", "a.b", 1u64, b"msg".to_vec(), None::<String>)),
        body_of(&"Ping"),
        body_of(&"Pong"),
        body_of(&"Ok"),
        body_of(&("Err", "fail")),
    ];

    let mut codec = codec();
    let mut buf = Vec::new();

    for f in &frames {
        codec.encode_frame(f, &mut buf).unwrap();
    }

    for expected in &frames {
        let decoded = decode_body(&mut codec, &mut buf).unwrap();
        assert_eq!(&decoded, expected);
    }
}

#[test]
fn header_is_big_endian_length_then_version() {
    let body = vec![0xAAu8; 300];
    let buf = encode_body(&body);
    assert_eq!(&buf[..5], &[0, 0, 0x01, 0x2D, PROTOCOL_VERSION]);
    assert_eq!(buf.len(), 4 + 1 + 300);
}

#[test]
fn too_small_body_is_a_protocol_error() {
    let mut buf = vec![0, 0, 0, 1, PROTOCOL_VERSION];
    let mut codec = codec();
    match codec.decode_frame(&mut buf) {
        Err(PubSubError::Protocol(msg)) => assert_eq!(msg, "frame body too small: 1 bytes"),
        other => panic!("unexpected {:?}", other),
    }
    assert_eq!(buf.len(), 5);
}

#[test]
fn too_large_reports_size_and_limit() {
    let mut buf = vec![0, 0, 0, 20, PROTOCOL_VERSION];
    let mut codec = TopiqCodec::new(10);
    assert!(matches!(
        codec.decode_frame(&mut buf),
        Err(PubSubError::FrameTooLarge { size: 20, max: 10 })
    ));
    let mut out = Vec::new();
    assert!(matches!(
        codec.encode_frame(&[0u8; 10], &mut out),
        Err(PubSubError::FrameTooLarge { size: 11, max: 10 })
    ));
    assert!(codec.encode_frame(&[0u8; 9], &mut out).is_ok());
}
