use vstd::prelude::*;
use vstd::string::StringExecFns;
use crate::text::concat3;

verus! {

/// A message between peers.  (On the wire, `Okay` and `Error` are named `Ok` and `Err`.)
#[derive(Debug)]
pub enum Message {
    Ping,
    Pong,
    Put { key: String, value: String },
    Get { key: String },
    Okay,
    Error { reason: String },
}

/// The mathematical content of a message.
pub enum MessageView {
    Ping,
    Pong,
    Put { key: Seq<char>, value: Seq<char> },
    Get { key: Seq<char> },
    Okay,
    Error { reason: Seq<char> },
}

impl View for Message {
    type V = MessageView;

    open spec fn view(&self) -> MessageView {
        match self {
            Message::Ping => MessageView::Ping,
            Message::Pong => MessageView::Pong,
            Message::Put { key, value } => MessageView::Put { key: key@, value: value@ },
            Message::Get { key } => MessageView::Get { key: key@ },
            Message::Okay => MessageView::Okay,
            Message::Error { reason } => MessageView::Error { reason: reason@ },
        }
    }
}

/// The reply of a listener to a received message: `Pong` to `Ping`, `Okay` to
/// `Put`, an error naming the key to `Get`, and an error to anything else.
pub open spec fn reply_spec(m: MessageView) -> MessageView {
    match m {
        MessageView::Ping => MessageView::Pong,
        MessageView::Put { .. } => MessageView::Okay,
        MessageView::Get { key } => MessageView::Error {
            reason: "'"@ + key + "' not implemented yet"@,
        },
        _ => MessageView::Error { reason: "unexpected message"@ },
    }
}

/// The reply to a received message.
pub fn reply_to(msg: &Message) -> (r: Message)
    ensures
        r@ == reply_spec(msg@),
{
    match msg {
        Message::Ping => Message::Pong,
        Message::Put { .. } => Message::Okay,
        Message::Get { key } => Message::Error {
            reason: concat3("'", key.as_str(), "' not implemented yet"),
        },
        _ => Message::Error { reason: String::from_str("unexpected message") },
    }
}

/// The four big-endian bytes of `x`.
pub open spec fn u32_be_bytes(x: u32) -> Seq<u8> {
    seq![
        ((x >> 24u32) & 0xffu32) as u8,
        ((x >> 16u32) & 0xffu32) as u8,
        ((x >> 8u32) & 0xffu32) as u8,
        (x & 0xffu32) as u8,
    ]
}

/// The number whose big-endian bytes are the first four of `b`.
pub open spec fn u32_from_be(b: Seq<u8>) -> u32 {
    ((b[0] as u32) << 24u32) | ((b[1] as u32) << 16u32) | ((b[2] as u32) << 8u32) | (b[3] as u32)
}

/// A frame: the body's length, cut to 32 bits, in four big-endian bytes, then the body.
pub open spec fn frame(body: Seq<u8>) -> Seq<u8> {
    u32_be_bytes(body.len() as u32) + body
}

/// Frames `body` for sending: its length as a big-endian `u32`, then the body.
pub fn encode_frame(body: &[u8]) -> (r: Vec<u8>)
    ensures
        r@ == frame(body@),
{
    let len: u32 = body.len() as u32;
    let mut out: Vec<u8> = Vec::new();
    out.push(((len >> 24u32) & 0xffu32) as u8);
    out.push(((len >> 16u32) & 0xffu32) as u8);
    out.push(((len >> 8u32) & 0xffu32) as u8);
    out.push((len & 0xffu32) as u8);
    let ghost header = out@;
    assert(header =~= u32_be_bytes(len));
    out.extend_from_slice(body);
    assert(out@ =~= frame(body@));
    out
}

/// The body length that a received frame header announces.
pub fn frame_body_len(header: &[u8]) -> (r: u32)
    requires
        header@.len() == 4,
    ensures
        r == u32_from_be(header@),
{
    ((header[0] as u32) << 24u32) | ((header[1] as u32) << 16u32) | ((header[2] as u32) << 8u32)
        | (header[3] as u32)
}

/// The text of one lowercase hexadecimal digit.
pub open spec fn hex_digit_text(d: nat) -> Seq<char> {
    if d == 0 { "0"@ } else if d == 1 { "1"@ } else if d == 2 { "2"@ } else if d == 3 { "3"@ }
    else if d == 4 { "4"@ } else if d == 5 { "5"@ } else if d == 6 { "6"@ } else if d == 7 { "7"@ }
    else if d == 8 { "8"@ } else if d == 9 { "9"@ } else if d == 10 { "a"@ } else if d == 11 { "b"@ }
    else if d == 12 { "c"@ } else if d == 13 { "d"@ } else if d == 14 { "e"@ } else { "f"@ }
}

/// The two-digit lowercase hexadecimal text of a byte.
pub open spec fn hex_byte_text(b: u8) -> Seq<char> {
    hex_digit_text((b / 16) as nat) + hex_digit_text((b % 16) as nat)
}

/// The hexadecimal texts of `bytes`, separated by single spaces.
pub open spec fn hex_join(bytes: Seq<u8>) -> Seq<char>
    decreases bytes.len(),
{
    if bytes.len() == 0 {
        Seq::empty()
    } else if bytes.len() == 1 {
        hex_byte_text(bytes[0])
    } else {
        hex_join(bytes.drop_last()) + " "@ + hex_byte_text(bytes.last())
    }
}

fn hex_digit_str(d: u8) -> (r: &'static str)
    requires
        d < 16,
    ensures
        r@ == hex_digit_text(d as nat),
{
    match d {
        0 => "0",
        1 => "1",
        2 => "2",
        3 => "3",
        4 => "4",
        5 => "5",
        6 => "6",
        7 => "7",
        8 => "8",
        9 => "9",
        10 => "a",
        11 => "b",
        12 => "c",
        13 => "d",
        14 => "e",
        _ => "f",
    }
}

/// The first eight bytes (fewer where there are fewer) of `bytes`, each as
/// two lowercase hexadecimal digits, separated by single spaces.
pub fn hex_format(bytes: &[u8]) -> (r: String)
    ensures
        r@ == hex_join(bytes@.subrange(0, if bytes@.len() < 8 { bytes@.len() as int } else { 8 })),
{
    let k: usize = if bytes.len() < 8 {
        bytes.len()
    } else {
        8
    };
    let mut s = String::new();
    let mut i: usize = 0;
    assert(bytes@.subrange(0, 0) =~= Seq::<u8>::empty());
    while i < k
        invariant
            k <= bytes@.len(),
            i <= k,
            s@ == hex_join(bytes@.subrange(0, i as int)),
        decreases k - i,
    {
        let b = bytes[i];
        let ghost pre = bytes@.subrange(0, i as int);
        assert(bytes@.subrange(0, i + 1).drop_last() =~= pre);
        assert(bytes@.subrange(0, i + 1).last() == b);
        if i > 0 {
            s.append(" ");
        }
        let ghost before = s@;
        s.append(hex_digit_str(b / 16));
        s.append(hex_digit_str(b % 16));
        if i == 0 {
            assert(bytes@.subrange(0, 1) =~= seq![b]);
            assert(s@ =~= hex_join(bytes@.subrange(0, i + 1)));
        } else {
            assert(s@ =~= hex_join(bytes@.subrange(0, i + 1)));
        }
        i = i + 1;
    }
    s
}

} // verus!
