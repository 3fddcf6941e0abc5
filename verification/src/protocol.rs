//! The land protocol: a twelve-byte header, then the message it announces.
//! Integers are little-endian and nothing is padded.

use vstd::prelude::*;
use crate::wire::{encode_words, read_word, read_words};

verus! {

pub const PROTOCOL_MAGIC: u32 = 0x4C414E00;

pub const HEADER_SIZE: usize = 12;

pub const FRAME_SIZE: usize = 24;

pub const TOUCH_SIZE: usize = 33;

pub const ACK_SIZE: usize = 8;

/// Bit pattern of the single precision number one.
pub const ONE: u32 = 0x3F80_0000;

#[derive(Clone, Copy, Debug, PartialEq, Eq, Structural)]
pub enum MessageType {
    Frame,
    Touch,
    Ack,
}

impl MessageType {
    pub open spec fn code(self) -> u32 {
        match self {
            MessageType::Frame => 0x4C414E01,
            MessageType::Touch => 0x4C414E02,
            MessageType::Ack => 0x4C414E03,
        }
    }

    pub open spec fn of_code(v: u32) -> Option<MessageType> {
        if v == MessageType::Frame.code() {
            Some(MessageType::Frame)
        } else if v == MessageType::Touch.code() {
            Some(MessageType::Touch)
        } else if v == MessageType::Ack.code() {
            Some(MessageType::Ack)
        } else {
            None
        }
    }

    pub fn as_u32(self) -> (r: u32)
        ensures
            r == self.code(),
    {
        match self {
            MessageType::Frame => 0x4C414E01,
            MessageType::Touch => 0x4C414E02,
            MessageType::Ack => 0x4C414E03,
        }
    }

    pub fn from_u32(v: u32) -> (r: Option<Self>)
        ensures
            r == Self::of_code(v),
    {
        match v {
            0x4C414E01 => Some(MessageType::Frame),
            0x4C414E02 => Some(MessageType::Touch),
            0x4C414E03 => Some(MessageType::Ack),
            _ => None,
        }
    }
}

/// The code of a message type is read back as that type, and no other code is
/// read at all.
pub proof fn lemma_message_type_codes(t: MessageType, v: u32)
    ensures
        MessageType::of_code(t.code()) == Some(t),
        MessageType::of_code(v) == Some(t) <==> v == t.code(),
{
}

#[derive(Clone, Copy, Debug, PartialEq, Eq, Structural)]
pub enum GestureType {
    TouchDown,
    TouchMove,
    TouchUp,
    Pinch,
    PinchEnd,
    Scroll,
    ScrollEnd,
}

impl GestureType {
    pub open spec fn code(self) -> u32 {
        match self {
            GestureType::TouchDown => 0,
            GestureType::TouchMove => 1,
            GestureType::TouchUp => 2,
            GestureType::Pinch => 3,
            GestureType::PinchEnd => 4,
            GestureType::Scroll => 5,
            GestureType::ScrollEnd => 6,
        }
    }

    pub fn as_u32(self) -> (r: u32)
        ensures
            r == self.code(),
    {
        match self {
            GestureType::TouchDown => 0,
            GestureType::TouchMove => 1,
            GestureType::TouchUp => 2,
            GestureType::Pinch => 3,
            GestureType::PinchEnd => 4,
            GestureType::Scroll => 5,
            GestureType::ScrollEnd => 6,
        }
    }
}

/// What precedes every message.
#[derive(Clone, Copy, Debug, PartialEq, Eq, Structural)]
pub struct MessageHeader {
    pub magic: u32,
    pub msg_type: u32,
    /// Bytes of the message that follows.
    pub length: u32,
}

impl MessageHeader {
    pub open spec fn words(self) -> Seq<u32> {
        seq![self.magic, self.msg_type, self.length]
    }

    /// The header that the bytes at `at` hold.
    pub open spec fn at(s: Seq<u8>, at: int) -> MessageHeader {
        MessageHeader {
            magic: crate::wire::le_word(s, at),
            msg_type: crate::wire::le_word(s, at + 4),
            length: crate::wire::le_word(s, at + 8),
        }
    }

    pub open spec fn valid(self) -> bool {
        self.magic == PROTOCOL_MAGIC && MessageType::of_code(self.msg_type) is Some
    }

    pub fn new(msg_type: MessageType, payload_length: u32) -> (r: Self)
        ensures
            r == (MessageHeader {
                magic: PROTOCOL_MAGIC,
                msg_type: msg_type.code(),
                length: payload_length,
            }),
            r.valid(),
    {
        MessageHeader {
            magic: PROTOCOL_MAGIC,
            msg_type: msg_type.as_u32(),
            length: payload_length,
        }
    }

    pub fn validate(&self) -> (r: bool)
        ensures
            r == self.valid(),
    {
        self.magic == PROTOCOL_MAGIC && MessageType::from_u32(self.msg_type).is_some()
    }

    pub fn serialized_size() -> (r: usize)
        ensures
            r == HEADER_SIZE,
    {
        HEADER_SIZE
    }

    pub fn to_bytes(&self) -> (r: Vec<u8>)
        ensures
            r@ == crate::wire::words_bytes(self.words()),
            r@.len() == HEADER_SIZE,
    {
        let words: [u32; 3] = [self.magic, self.msg_type, self.length];
        assert(words@ =~= self.words());
        encode_words(words.as_slice())
    }

    /// Reads the header at the front of `buf`.
    pub fn read(buf: &[u8]) -> (r: Self)
        requires
            buf@.len() >= HEADER_SIZE,
        ensures
            r == Self::at(buf@, 0),
    {
        MessageHeader {
            magic: read_word(buf, 0),
            msg_type: read_word(buf, 4),
            length: read_word(buf, 8),
        }
    }
}

/// The number whose low and high halves are given.
pub open spec fn joined(low: u32, high: u32) -> u64 {
    (low + 0x1_0000_0000 * high) as u64
}

pub open spec fn low_half(v: u64) -> u32 {
    (v % 0x1_0000_0000) as u32
}

pub open spec fn high_half(v: u64) -> u32 {
    (v / 0x1_0000_0000) as u32
}

fn join(low: u32, high: u32) -> (r: u64)
    ensures
        r == joined(low, high),
{
    low as u64 + 0x1_0000_0000 * (high as u64)
}

/// One frame. Its descriptors travel beside it.
#[derive(Clone, Copy, Debug, PartialEq, Eq, Structural)]
pub struct FrameMessage {
    pub width: u32,
    pub height: u32,
    pub format: u32,
    pub stride: u32,
    pub serial: u64,
}

impl FrameMessage {
    pub open spec fn words(self) -> Seq<u32> {
        seq![
            self.width,
            self.height,
            self.format,
            self.stride,
            low_half(self.serial),
            high_half(self.serial),
        ]
    }

    pub open spec fn at(s: Seq<u8>, at: int) -> FrameMessage {
        FrameMessage {
            width: crate::wire::le_word(s, at),
            height: crate::wire::le_word(s, at + 4),
            format: crate::wire::le_word(s, at + 8),
            stride: crate::wire::le_word(s, at + 12),
            serial: joined(crate::wire::le_word(s, at + 16), crate::wire::le_word(s, at + 20)),
        }
    }

    pub fn new(width: u32, height: u32, format: u32, stride: u32, serial: u64) -> (r: Self)
        ensures
            r == (FrameMessage { width, height, format, stride, serial }),
    {
        FrameMessage { width, height, format, stride, serial }
    }

    pub fn serialized_size() -> (r: usize)
        ensures
            r == FRAME_SIZE,
    {
        FRAME_SIZE
    }

    pub fn to_bytes(&self) -> (r: Vec<u8>)
        ensures
            r@ == crate::wire::words_bytes(self.words()),
            r@.len() == FRAME_SIZE,
    {
        let words: [u32; 6] = [
            self.width,
            self.height,
            self.format,
            self.stride,
            (self.serial % 0x1_0000_0000) as u32,
            (self.serial / 0x1_0000_0000) as u32,
        ];
        assert(words@ =~= self.words());
        encode_words(words.as_slice())
    }

    /// Reads the message at byte `at`.
    pub fn read(buf: &[u8], at: usize) -> (r: Self)
        requires
            at + FRAME_SIZE <= buf@.len(),
        ensures
            r == Self::at(buf@, at as int),
    {
        let w = read_words(buf, at, 6);
        FrameMessage {
            width: w[0],
            height: w[1],
            format: w[2],
            stride: w[3],
            serial: join(w[4], w[5]),
        }
    }
}

/// One touch or gesture. The coordinates, the increments and the scale are bit
/// patterns of IEEE 754 single precision numbers.
#[derive(Clone, Copy, Debug, PartialEq, Eq, Structural)]
pub struct TouchMessage {
    pub serial: u32,
    pub touch_id: i32,
    /// Code of a [`GestureType`].
    pub gesture: u32,
    pub x: u32,
    pub y: u32,
    /// Increments of scrolling.
    pub dx: u32,
    pub dy: u32,
    /// Factor of pinching.
    pub scale: u32,
    /// Zero or one.
    pub pressed: u8,
}

impl TouchMessage {
    pub open spec fn words(self) -> Seq<u32> {
        seq![
            self.serial,
            self.touch_id as u32,
            self.gesture,
            self.x,
            self.y,
            self.dx,
            self.dy,
            self.scale,
        ]
    }

    pub open spec fn bytes(self) -> Seq<u8> {
        crate::wire::words_bytes(self.words()).push(self.pressed)
    }

    pub open spec fn at(s: Seq<u8>, at: int) -> TouchMessage {
        TouchMessage {
            serial: crate::wire::le_word(s, at),
            touch_id: crate::wire::le_word(s, at + 4) as i32,
            gesture: crate::wire::le_word(s, at + 8),
            x: crate::wire::le_word(s, at + 12),
            y: crate::wire::le_word(s, at + 16),
            dx: crate::wire::le_word(s, at + 20),
            dy: crate::wire::le_word(s, at + 24),
            scale: crate::wire::le_word(s, at + 28),
            pressed: s[at + 32],
        }
    }

    pub fn new_touch(
        serial: u32,
        touch_id: i32,
        gesture: GestureType,
        x: u32,
        y: u32,
        pressed: bool,
    ) -> (r: Self)
        ensures
            r == (TouchMessage {
                serial,
                touch_id,
                gesture: gesture.code(),
                x,
                y,
                dx: 0,
                dy: 0,
                scale: ONE,
                pressed: if pressed {
                    1
                } else {
                    0
                },
            }),
    {
        TouchMessage {
            serial,
            touch_id,
            gesture: gesture.as_u32(),
            x,
            y,
            dx: 0,
            dy: 0,
            scale: ONE,
            pressed: if pressed {
                1
            } else {
                0
            },
        }
    }

    pub fn new_scroll(serial: u32, dx: u32, dy: u32) -> (r: Self)
        ensures
            r == (TouchMessage {
                serial,
                touch_id: 0,
                gesture: GestureType::Scroll.code(),
                x: 0,
                y: 0,
                dx,
                dy,
                scale: ONE,
                pressed: 1,
            }),
    {
        TouchMessage {
            serial,
            touch_id: 0,
            gesture: GestureType::Scroll.as_u32(),
            x: 0,
            y: 0,
            dx,
            dy,
            scale: ONE,
            pressed: 1,
        }
    }

    pub fn new_pinch(serial: u32, scale: u32) -> (r: Self)
        ensures
            r == (TouchMessage {
                serial,
                touch_id: 0,
                gesture: GestureType::Pinch.code(),
                x: 0,
                y: 0,
                dx: 0,
                dy: 0,
                scale,
                pressed: 1,
            }),
    {
        TouchMessage {
            serial,
            touch_id: 0,
            gesture: GestureType::Pinch.as_u32(),
            x: 0,
            y: 0,
            dx: 0,
            dy: 0,
            scale,
            pressed: 1,
        }
    }

    pub fn serialized_size() -> (r: usize)
        ensures
            r == TOUCH_SIZE,
    {
        TOUCH_SIZE
    }

    pub fn to_bytes(&self) -> (r: Vec<u8>)
        ensures
            r@ == self.bytes(),
            r@.len() == TOUCH_SIZE,
    {
        let words: [u32; 8] = [
            self.serial,
            #[verifier::truncate]
            (self.touch_id as u32),
            self.gesture,
            self.x,
            self.y,
            self.dx,
            self.dy,
            self.scale,
        ];
        assert(words@ =~= self.words());
        let mut out = encode_words(words.as_slice());
        out.push(self.pressed);
        out
    }

    /// Reads the message at byte `at`.
    pub fn read(buf: &[u8], at: usize) -> (r: Self)
        requires
            at + TOUCH_SIZE <= buf@.len(),
        ensures
            r == Self::at(buf@, at as int),
    {
        let len: usize = buf.len();
        let w = read_words(buf, at, 8);
        assert(at + 32 < len);
        TouchMessage {
            serial: w[0],
            touch_id: #[verifier::truncate]
            (w[1] as i32),
            gesture: w[2],
            x: w[3],
            y: w[4],
            dx: w[5],
            dy: w[6],
            scale: w[7],
            pressed: buf[at + 32],
        }
    }
}

/// Acknowledges a frame.
#[derive(Clone, Copy, Debug, PartialEq, Eq, Structural)]
pub struct AckMessage {
    pub serial: u64,
}

impl AckMessage {
    pub open spec fn words(self) -> Seq<u32> {
        seq![low_half(self.serial), high_half(self.serial)]
    }

    pub open spec fn at(s: Seq<u8>, at: int) -> AckMessage {
        AckMessage {
            serial: joined(crate::wire::le_word(s, at), crate::wire::le_word(s, at + 4)),
        }
    }

    pub fn new(serial: u64) -> (r: Self)
        ensures
            r == (AckMessage { serial }),
    {
        AckMessage { serial }
    }

    pub fn serialized_size() -> (r: usize)
        ensures
            r == ACK_SIZE,
    {
        ACK_SIZE
    }
}

/// A whole message as it goes on the wire: the header, then the body.
pub open spec fn packet(msg_type: MessageType, body: Seq<u8>) -> Seq<u8> {
    crate::wire::words_bytes(
        (MessageHeader {
            magic: PROTOCOL_MAGIC,
            msg_type: msg_type.code(),
            length: body.len() as u32,
        }).words(),
    ) + body
}

/// The bytes that carry a frame.
pub fn frame_packet(msg: &FrameMessage) -> (r: Vec<u8>)
    ensures
        r@ == packet(MessageType::Frame, crate::wire::words_bytes(msg.words())),
        r@.len() == HEADER_SIZE + FRAME_SIZE,
{
    let mut out = MessageHeader::new(MessageType::Frame, FRAME_SIZE as u32).to_bytes();
    let mut body = msg.to_bytes();
    out.append(&mut body);
    out
}

/// The bytes that carry a touch.
pub fn touch_packet(msg: &TouchMessage) -> (r: Vec<u8>)
    ensures
        r@ == packet(MessageType::Touch, msg.bytes()),
        r@.len() == HEADER_SIZE + TOUCH_SIZE,
{
    let mut out = MessageHeader::new(MessageType::Touch, TOUCH_SIZE as u32).to_bytes();
    let mut body = msg.to_bytes();
    out.append(&mut body);
    out
}

proof fn lemma_read_back(words: Seq<u32>, pre: Seq<u8>, post: Seq<u8>)
    ensures
        ({
            let s = pre + crate::wire::words_bytes(words) + post;
            forall|i: int|
                0 <= i < words.len() ==> crate::wire::le_word(s, pre.len() + 4 * i)
                    == #[trigger] words[i]
        }),
{
    let s = pre + crate::wire::words_bytes(words) + post;
    crate::wire::lemma_words_of_bytes(words, pre, post);
    assert forall|i: int| 0 <= i < words.len() implies crate::wire::le_word(s, pre.len() + 4 * i)
        == #[trigger] words[i] by {
        assert(crate::wire::words_at(s, pre.len() as int, words.len())[i] == words[i]);
    }
}

/// A header that is written is read back, whatever follows it.
pub proof fn lemma_header_round_trip(h: MessageHeader, rest: Seq<u8>)
    ensures
        MessageHeader::at(crate::wire::words_bytes(h.words()) + rest, 0) == h,
{
    let w = h.words();
    lemma_read_back(w, seq![], rest);
    assert(seq![] + crate::wire::words_bytes(w) + rest =~= crate::wire::words_bytes(w) + rest);
    assert(w[0] == h.magic && w[1] == h.msg_type && w[2] == h.length);
}

/// A frame that is written is read back, wherever it stands.
pub proof fn lemma_frame_round_trip(m: FrameMessage, pre: Seq<u8>, rest: Seq<u8>)
    ensures
        FrameMessage::at(pre + crate::wire::words_bytes(m.words()) + rest, pre.len() as int) == m,
{
    let w = m.words();
    lemma_read_back(w, pre, rest);
    assert(w[0] == m.width && w[1] == m.height && w[2] == m.format && w[3] == m.stride);
    assert(joined(w[4], w[5]) == m.serial);
}

/// A touch that is written is read back, wherever it stands.
#[verifier::rlimit(40)]
pub proof fn lemma_touch_round_trip(m: TouchMessage, pre: Seq<u8>, rest: Seq<u8>)
    ensures
        TouchMessage::at(pre + m.bytes() + rest, pre.len() as int) == m,
{
    let w = m.words();
    let n = pre.len() as int;
    let tail = seq![m.pressed] + rest;
    let s = pre + m.bytes() + rest;
    assert(pre + crate::wire::words_bytes(w) + tail =~= s);
    lemma_read_back(w, pre, tail);
    assert(w[0] == crate::wire::le_word(s, n));
    assert(w[1] == crate::wire::le_word(s, n + 4));
    assert(w[2] == crate::wire::le_word(s, n + 8));
    assert(w[3] == crate::wire::le_word(s, n + 12));
    assert(w[4] == crate::wire::le_word(s, n + 16));
    assert(w[5] == crate::wire::le_word(s, n + 20));
    assert(w[6] == crate::wire::le_word(s, n + 24));
    assert(w[7] == crate::wire::le_word(s, n + 28));
    assert(s[n + 32] == m.pressed);
    let t = m.touch_id;
    assert((t as u32) as i32 == t) by (bit_vector);
}

/// An acknowledgement that is written is read back, wherever it stands.
pub proof fn lemma_ack_round_trip(m: AckMessage, pre: Seq<u8>, rest: Seq<u8>)
    ensures
        AckMessage::at(pre + crate::wire::words_bytes(m.words()) + rest, pre.len() as int) == m,
{
    let w = m.words();
    lemma_read_back(w, pre, rest);
    assert(joined(w[0], w[1]) == m.serial);
}

/// Where the fields of a frame stand, behind a header of twelve bytes.
pub proof fn lemma_frame_layout(m: FrameMessage)
    ensures
        ({
            let p = packet(MessageType::Frame, crate::wire::words_bytes(m.words()));
            &&& p.len() == 36
            &&& crate::wire::le_word(p, 0) == 0x4C41_4E00
            &&& crate::wire::le_word(p, 4) == 0x4C41_4E01
            &&& crate::wire::le_word(p, 8) == 24
            &&& crate::wire::le_word(p, 12) == m.width
            &&& crate::wire::le_word(p, 16) == m.height
            &&& crate::wire::le_word(p, 20) == m.format
            &&& crate::wire::le_word(p, 24) == m.stride
            &&& crate::wire::le_word(p, 28) + 0x1_0000_0000 * crate::wire::le_word(p, 32)
                == m.serial
        }),
{
    let body = crate::wire::words_bytes(m.words());
    let h = MessageHeader {
        magic: PROTOCOL_MAGIC,
        msg_type: MessageType::Frame.code(),
        length: 24,
    };
    let p = packet(MessageType::Frame, body);
    lemma_header_round_trip(h, body);
    let head = crate::wire::words_bytes(h.words());
    assert(p =~= head + body + seq![]);
    lemma_read_back(m.words(), head, seq![]);
    let w = m.words();
    assert(w[0] == crate::wire::le_word(p, 12));
    assert(w[1] == crate::wire::le_word(p, 16));
    assert(w[2] == crate::wire::le_word(p, 20));
    assert(w[3] == crate::wire::le_word(p, 24));
    assert(w[4] == crate::wire::le_word(p, 28));
    assert(w[5] == crate::wire::le_word(p, 32));
}

/// Where the fields of a touch stand, behind a header of twelve bytes.
#[verifier::rlimit(40)]
pub proof fn lemma_touch_layout(m: TouchMessage)
    ensures
        ({
            let p = packet(MessageType::Touch, m.bytes());
            &&& p.len() == 45
            &&& crate::wire::le_word(p, 0) == 0x4C41_4E00
            &&& crate::wire::le_word(p, 4) == 0x4C41_4E02
            &&& crate::wire::le_word(p, 8) == 33
            &&& crate::wire::le_word(p, 12) == m.serial
            &&& crate::wire::le_word(p, 16) as i32 == m.touch_id
            &&& crate::wire::le_word(p, 20) == m.gesture
            &&& crate::wire::le_word(p, 24) == m.x
            &&& crate::wire::le_word(p, 28) == m.y
            &&& crate::wire::le_word(p, 32) == m.dx
            &&& crate::wire::le_word(p, 36) == m.dy
            &&& crate::wire::le_word(p, 40) == m.scale
            &&& p[44] == m.pressed
        }),
{
    let body = m.bytes();
    let h = MessageHeader {
        magic: PROTOCOL_MAGIC,
        msg_type: MessageType::Touch.code(),
        length: 33,
    };
    let p = packet(MessageType::Touch, body);
    lemma_header_round_trip(h, body);
    let head = crate::wire::words_bytes(h.words());
    let w = m.words();
    let last = seq![m.pressed];
    assert(p =~= head + crate::wire::words_bytes(w) + last);
    lemma_read_back(w, head, last);
    assert(w[0] == crate::wire::le_word(p, 12));
    assert(w[1] == crate::wire::le_word(p, 16));
    assert(w[2] == crate::wire::le_word(p, 20));
    assert(w[3] == crate::wire::le_word(p, 24));
    assert(w[4] == crate::wire::le_word(p, 28));
    assert(w[5] == crate::wire::le_word(p, 32));
    assert(w[6] == crate::wire::le_word(p, 36));
    assert(w[7] == crate::wire::le_word(p, 40));
    let t = m.touch_id;
    assert((t as u32) as i32 == t) by (bit_vector);
}

/// Reading takes each field from its place, whatever the bytes are.
pub proof fn lemma_fields_are_read_in_place(s: Seq<u8>, at: int)
    ensures
        FrameMessage::at(s, at).width == crate::wire::le_word(s, at),
        FrameMessage::at(s, at).height == crate::wire::le_word(s, at + 4),
        FrameMessage::at(s, at).format == crate::wire::le_word(s, at + 8),
        FrameMessage::at(s, at).stride == crate::wire::le_word(s, at + 12),
        FrameMessage::at(s, at).serial == crate::wire::le_word(s, at + 16) + 0x1_0000_0000
            * crate::wire::le_word(s, at + 20),
        TouchMessage::at(s, at).serial == crate::wire::le_word(s, at),
        TouchMessage::at(s, at).touch_id == crate::wire::le_word(s, at + 4) as i32,
        TouchMessage::at(s, at).gesture == crate::wire::le_word(s, at + 8),
        TouchMessage::at(s, at).x == crate::wire::le_word(s, at + 12),
        TouchMessage::at(s, at).y == crate::wire::le_word(s, at + 16),
        TouchMessage::at(s, at).dx == crate::wire::le_word(s, at + 20),
        TouchMessage::at(s, at).dy == crate::wire::le_word(s, at + 24),
        TouchMessage::at(s, at).scale == crate::wire::le_word(s, at + 28),
        TouchMessage::at(s, at).pressed == s[at + 32],
        AckMessage::at(s, at).serial == crate::wire::le_word(s, at) + 0x1_0000_0000
            * crate::wire::le_word(s, at + 4),
        MessageHeader::at(s, at).magic == crate::wire::le_word(s, at),
        MessageHeader::at(s, at).msg_type == crate::wire::le_word(s, at + 4),
        MessageHeader::at(s, at).length == crate::wire::le_word(s, at + 8),
        MessageHeader::at(s, at).valid() <==> crate::wire::le_word(s, at) == 0x4C41_4E00
            && 0x4C41_4E01 <= crate::wire::le_word(s, at + 4) <= 0x4C41_4E03,
{
}

/// Gestures are numbered as they are listed.
pub proof fn lemma_gesture_codes(g: GestureType)
    ensures
        g.code() == (match g {
            GestureType::TouchDown => 0u32,
            GestureType::TouchMove => 1,
            GestureType::TouchUp => 2,
            GestureType::Pinch => 3,
            GestureType::PinchEnd => 4,
            GestureType::Scroll => 5,
            GestureType::ScrollEnd => 6,
        }),
{
}

} // verus!
