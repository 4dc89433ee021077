use constelladb::protocol::{encode_frame, frame_body_len, hex_format, reply_to, Message};

#[test]
fn replies() {
    assert!(matches!(reply_to(&Message::Ping), Message::Pong));
    let put = Message::Put { key: "foo".to_string(), value: "bar".to_string() };
    assert!(matches!(reply_to(&put), Message::Okay));
    let get = Message::Get { key: "foo".to_string() };
    assert!(matches!(reply_to(&get), Message::Error { reason } if reason == "'foo' not implemented yet"));
    assert!(matches!(reply_to(&Message::Pong), Message::Error { reason } if reason == "unexpected message"));
    assert!(matches!(reply_to(&Message::Okay), Message::Error { reason } if reason == "unexpected message"));
    let err = Message::Error { reason: "x".to_string() };
    assert!(matches!(reply_to(&err), Message::Error { reason } if reason == "unexpected message"));
}

#[test]
fn frame_has_big_endian_length_header() {
    assert_eq!(encode_frame(b"abc"), vec![0, 0, 0, 3, b'a', b'b', b'c']);
    assert_eq!(encode_frame(b""), vec![0, 0, 0, 0]);
    let body = vec![7u8; 300];
    let f = encode_frame(&body);
    assert_eq!(&f[..4], &[0, 0, 1, 44]);
    assert_eq!(&f[4..], &body[..]);
}

#[test]
fn frame_roundtrip() {
    let body = b"{\"Get\":{\"key\":\"foo\"}}".to_vec();
    let f = encode_frame(&body);
    let n = frame_body_len(&f[..4]) as usize;
    assert_eq!(n, body.len());
    assert_eq!(&f[4..4 + n], &body[..]);
    assert_eq!(frame_body_len(&[1, 2, 3, 4]), 0x01020304);
    assert_eq!(frame_body_len(&[0xff, 0xff, 0xff, 0xff]), u32::MAX);
}

#[test]
fn hex_format_first_eight_bytes() {
    assert_eq!(hex_format(&[]), "");
    assert_eq!(hex_format(&[0x0a]), "0a");
    assert_eq!(hex_format(&[0xde, 0xad, 0xbe, 0xef]), "de ad be ef");
    assert_eq!(hex_format(&[1, 2, 3, 4, 5, 6, 7, 8, 9, 10]), "01 02 03 04 05 06 07 08");
}
