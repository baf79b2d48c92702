use bytes::BytesMut;
use cord::codec::{CodecError, MessageCodec};
use cord::message::Message;
use cord::pattern::Pattern;

fn event(ns: &str, data: &str) -> Message {
    Message::Event(Pattern::new(ns), String::from(data))
}

#[test]
fn encode_provide_frame() {
    let mut codec = MessageCodec::new();
    let mut buf = BytesMut::new();
    codec.encode(Message::Provide(Pattern::new("/my/ns")), &mut buf).unwrap();
    assert_eq!(&buf[..], &b"\x00\x00\x06/my/ns"[..]);
}

#[test]
fn encode_event_frame() {
    let mut codec = MessageCodec::new();
    let mut buf = BytesMut::new();
    codec.encode(event("/a", "moo"), &mut buf).unwrap();
    assert_eq!(&buf[..], &b"\x04\x00\x02/a\x00\x00\x00\x03moo"[..]);
}

#[test]
fn encode_appends_to_what_is_there() {
    let mut codec = MessageCodec::new();
    let mut buf = BytesMut::from(vec![9u8]);
    codec.encode(Message::Revoke(Pattern::new("/r")), &mut buf).unwrap();
    assert_eq!(&buf[..], &b"\x09\x01\x00\x02/r"[..]);
}

#[test]
fn encode_oversize_namespace() {
    let long = String::from_utf8(vec![b'a'; 65536]).unwrap();
    let mut codec = MessageCodec::new();
    let mut buf = BytesMut::new();
    let res = codec.encode(Message::Provide(Pattern::from_string(long)), &mut buf);
    assert_eq!(res, Err(CodecError::OversizedNamespace));
    assert_eq!(buf.len(), 0);
}

#[test]
fn encode_largest_namespace() {
    let long = String::from_utf8(vec![b'a'; 65535]).unwrap();
    let mut codec = MessageCodec::new();
    let mut buf = BytesMut::new();
    codec.encode(Message::Provide(Pattern::from_string(long)), &mut buf).unwrap();
    assert_eq!(buf.len(), 65538);
    assert_eq!(&buf[..3], &[0u8, 0xff, 0xff][..]);
}

#[test]
fn decode_whole_frames() {
    let mut codec = MessageCodec::new();
    let mut buf = BytesMut::from(&b"\x02\x00\x02/a\x04\x00\x02/b\x00\x00\x00\x02hi\x03"[..]);
    assert_eq!(codec.decode(&mut buf), Some(Message::Subscribe(Pattern::new("/a"))));
    match codec.decode(&mut buf) {
        Some(Message::Event(p, d)) => {
            assert_eq!(p, Pattern::new("/b"));
            assert_eq!(d, "hi");
        }
        other => panic!("unexpected {:?}", other),
    }
    // The kind byte of the next frame is taken and kept; its length has
    // not arrived yet.
    assert_eq!(codec.decode(&mut buf), None);
    assert_eq!(buf.len(), 0);
    buf.extend_from_slice(b"\x00\x01/");
    assert_eq!(codec.decode(&mut buf), Some(Message::Unsubscribe(Pattern::new("/"))));
}

#[test]
fn decode_partial() {
    let mut codec = MessageCodec::new();
    let mut buf = BytesMut::from(&b"\x00\x00\x0d/my/name"[..]);
    assert_eq!(codec.decode(&mut buf), None);
    assert_eq!(&buf[..], &b"/my/name"[..]);
    buf.extend_from_slice(b"space");
    assert_eq!(codec.decode(&mut buf), Some(Message::Provide(Pattern::new("/my/namespace"))));
    assert_eq!(buf.len(), 0);
}

#[test]
fn decode_byte_by_byte() {
    let mut enc = MessageCodec::new();
    let mut frame = BytesMut::new();
    enc.encode(event("/users/mark", "Mark has joined"), &mut frame).unwrap();
    let mut dec = MessageCodec::new();
    let mut buf = BytesMut::new();
    let mut got = None;
    for b in frame.iter() {
        buf.extend_from_slice(&[*b]);
        if let Some(m) = dec.decode(&mut buf) {
            got = Some(m);
        }
    }
    match got {
        Some(Message::Event(p, d)) => {
            assert_eq!(p, Pattern::new("/users/mark"));
            assert_eq!(d, "Mark has joined");
        }
        other => panic!("unexpected {:?}", other),
    }
}

#[test]
fn decode_replaces_invalid_utf8() {
    let mut codec = MessageCodec::new();
    let mut buf = BytesMut::from(&b"\x01\x00\x02/\xff"[..]);
    assert_eq!(codec.decode(&mut buf), Some(Message::Revoke(Pattern::new("/\u{fffd}"))));
}

#[test]
fn round_trip_every_kind() {
    let msgs = vec![
        Message::Provide(Pattern::new("/é")),
        Message::Revoke(Pattern::new("")),
        Message::Subscribe(Pattern::new("/s")),
        Message::Unsubscribe(Pattern::new("/u/v")),
        event("/e", ""),
    ];
    let mut enc = MessageCodec::new();
    let mut buf = BytesMut::new();
    for m in msgs.iter() {
        enc.encode(m.clone(), &mut buf).unwrap();
    }
    let mut dec = MessageCodec::new();
    for m in msgs.iter() {
        assert_eq!(dec.decode(&mut buf).as_ref(), Some(m));
    }
    assert_eq!(buf.len(), 0);
}

/// Feeds `bytes` to a fresh decoder in chunks of `size` bytes, calling it
/// after each chunk until it completes no message.
fn decode_in_chunks(bytes: &[u8], size: usize) -> (Vec<Message>, usize) {
    let mut dec = MessageCodec::new();
    let mut buf = BytesMut::new();
    let mut out = Vec::new();
    for chunk in bytes.chunks(size) {
        buf.extend_from_slice(chunk);
        while let Some(m) = dec.try_decode(&mut buf).unwrap() {
            out.push(m);
        }
    }
    (out, buf.len())
}

#[test]
fn decode_same_however_split() {
    let msgs = vec![
        event("/users/add", "Mark has joined"),
        Message::Provide(Pattern::new("/groups")),
        event("/e", ""),
        Message::Revoke(Pattern::new("")),
        Message::Unsubscribe(Pattern::new("/u/v")),
    ];
    let mut enc = MessageCodec::new();
    let mut frames = BytesMut::new();
    for m in msgs.iter() {
        enc.encode(m.clone(), &mut frames).unwrap();
    }
    for size in 1..=frames.len() {
        let (out, left) = decode_in_chunks(&frames[..], size);
        assert_eq!(out, msgs, "chunks of {} bytes", size);
        assert_eq!(left, 0);
    }
}

#[test]
fn try_decode_refuses_unknown_kind() {
    let mut codec = MessageCodec::new();
    let mut buf = BytesMut::from(&b"\x07\x00\x01/"[..]);
    assert_eq!(codec.try_decode(&mut buf), Err(CodecError::UnknownKind(7)));
    assert_eq!(buf.len(), 4);
    assert!(codec.awaits_kind());
}

#[test]
fn try_decode_waits_for_the_whole_unknown_frame() {
    let mut codec = MessageCodec::new();
    let mut buf = BytesMut::from(&b"\x07\x00"[..]);
    assert_eq!(codec.try_decode(&mut buf), Ok(None));
    assert_eq!(buf.len(), 2);
    buf.extend_from_slice(b"\x02/");
    assert_eq!(codec.try_decode(&mut buf), Ok(None));
    assert_eq!(buf.len(), 4);
    buf.extend_from_slice(b"x");
    assert_eq!(codec.try_decode(&mut buf), Err(CodecError::UnknownKind(7)));
    assert_eq!(buf.len(), 5);
}

#[test]
fn encode_names_the_field_too_long() {
    // an event with a namespace too long is refused for its namespace,
    // before its data is looked at, and nothing is written
    let long = String::from_utf8(vec![b'a'; 65536]).unwrap();
    let mut codec = MessageCodec::new();
    let mut buf = BytesMut::new();
    let res = codec.encode(Message::Event(Pattern::from_string(long), String::from("d")), &mut buf);
    assert_eq!(res, Err(CodecError::OversizedNamespace));
    assert_eq!(buf.len(), 0);
}

#[test]
fn try_decode_checks_only_a_kind_byte() {
    // mid-frame, a byte above 4 is namespace data, not a kind
    let mut codec = MessageCodec::new();
    let mut buf = BytesMut::from(&b"\x02\x00\x02"[..]);
    assert_eq!(codec.try_decode(&mut buf), Ok(None));
    buf.extend_from_slice(b"\x09\x09");
    assert_eq!(codec.try_decode(&mut buf), Ok(Some(Message::Subscribe(Pattern::new("\t\t")))));
    assert_eq!(codec.try_decode(&mut buf), Ok(None));
}
