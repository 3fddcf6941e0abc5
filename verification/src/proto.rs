//! The stateless link protocol between the compositor and the display App.
//!
//! Every message is a run of little-endian 32-bit words that begins with a
//! four-letter tag. A frame may carry one pixel fd beside its bytes. The
//! descriptor type is a parameter: the protocol only counts and hands on
//! descriptors, it never looks into one.

use vstd::prelude::*;
use vstd::string::*;
use crate::text::{push_decimal, push_hex};
use crate::wire::{encode_words, read_word, read_words};

verus! {

/// Tag `CONF`.
pub const MAGIC_CONF: u32 = 0x464E_4F43;

/// Tag `CONU`.
pub const MAGIC_CONFU: u32 = 0x554E_4F43;

/// Tag `LAND`.
pub const MAGIC_LAND: u32 = 0x444E_414C;

/// Tag `RLSE`.
pub const MAGIC_RLSE: u32 = 0x4553_4C52;

/// Tag `TOUC`.
pub const MAGIC_TOUC: u32 = 0x4355_4F54;

/// Tag `KEYM`.
pub const MAGIC_KEYM: u32 = 0x4D59_454B;

pub const PROTOCOL_VERSION: u32 = 3;

/// Frame flag: one pixel fd travels with the frame.
pub const FRAME_CARRIES_FDS: u32 = 1;

pub const TOUCH_PHASE_DOWN: u32 = 0;

pub const TOUCH_PHASE_MOVE: u32 = 1;

pub const TOUCH_PHASE_UP: u32 = 2;

pub const TOUCH_PHASE_CANCEL: u32 = 3;

pub const TOUCH_PHASE_FRAME: u32 = 4;

pub const MAX_PLANES: usize = 4;

pub const DRM_FORMAT_MOD_LINEAR: u64 = 0;

/// Fourcc `XR24`.
pub const DRM_FORMAT_XRGB8888: u32 = 0x3432_5258;

/// Fourcc `AR24`.
pub const DRM_FORMAT_ARGB8888: u32 = 0x3432_5241;

/// Fourcc `XB24`.
pub const DRM_FORMAT_XBGR8888: u32 = 0x3432_4258;

/// Fourcc `AB24`.
pub const DRM_FORMAT_ABGR8888: u32 = 0x3432_4241;

/// Encoded size of a [`ConfigMessage`].
pub const CONFIG_SIZE: usize = 32;

/// Encoded size of a [`FrameMessage`].
pub const FRAME_SIZE: usize = 16;

/// Encoded size of a [`ReleaseMessage`].
pub const RELEASE_SIZE: usize = 8;

/// Encoded size of a [`TouchMessage`].
pub const TOUCH_SIZE: usize = 24;

/// Encoded size of a [`KeyMessage`].
pub const KEY_SIZE: usize = 16;

/// The code of a four-letter tag.
pub fn fourcc(s: &[u8; 4]) -> (r: u32)
    ensures
        r == crate::wire::le_word(s@, 0),
{
    read_word(s.as_slice(), 0)
}

/// The message tags and the pixel format codes are the ASCII letters they are
/// named by, first letter in the lowest byte.
pub proof fn lemma_tags_are_letters()
    ensures
        crate::wire::le_bytes(MAGIC_CONF) == seq![0x43u8, 0x4Fu8, 0x4Eu8, 0x46u8],
        crate::wire::le_bytes(MAGIC_CONFU) == seq![0x43u8, 0x4Fu8, 0x4Eu8, 0x55u8],
        crate::wire::le_bytes(MAGIC_LAND) == seq![0x4Cu8, 0x41u8, 0x4Eu8, 0x44u8],
        crate::wire::le_bytes(MAGIC_RLSE) == seq![0x52u8, 0x4Cu8, 0x53u8, 0x45u8],
        crate::wire::le_bytes(MAGIC_TOUC) == seq![0x54u8, 0x4Fu8, 0x55u8, 0x43u8],
        crate::wire::le_bytes(MAGIC_KEYM) == seq![0x4Bu8, 0x45u8, 0x59u8, 0x4Du8],
        crate::wire::le_bytes(DRM_FORMAT_XRGB8888) == seq![0x58u8, 0x52u8, 0x32u8, 0x34u8],
        crate::wire::le_bytes(DRM_FORMAT_ARGB8888) == seq![0x41u8, 0x52u8, 0x32u8, 0x34u8],
        crate::wire::le_bytes(DRM_FORMAT_XBGR8888) == seq![0x58u8, 0x42u8, 0x32u8, 0x34u8],
        crate::wire::le_bytes(DRM_FORMAT_ABGR8888) == seq![0x41u8, 0x42u8, 0x32u8, 0x34u8],
{
}

/// Display geometry: from the App as `CONF`, mirrored back as `CONU`.
#[derive(Clone, Copy, Debug, PartialEq, Eq, Structural)]
pub struct ConfigMessage {
    pub magic: u32,
    pub protocol_version: u32,
    pub width: u32,
    pub height: u32,
    pub refresh_millihz: u32,
    pub dpi: u32,
    pub app_caps: u32,
    /// Frame pacing: 0 free, 1 aligned to vsync, 2 performance, 3 power save.
    pub frame_mode: u32,
}

impl ConfigMessage {
    pub open spec fn words(self) -> Seq<u32> {
        seq![
            self.magic,
            self.protocol_version,
            self.width,
            self.height,
            self.refresh_millihz,
            self.dpi,
            self.app_caps,
            self.frame_mode,
        ]
    }

    pub open spec fn of_words(w: Seq<u32>) -> ConfigMessage {
        ConfigMessage {
            magic: w[0],
            protocol_version: w[1],
            width: w[2],
            height: w[3],
            refresh_millihz: w[4],
            dpi: w[5],
            app_caps: w[6],
            frame_mode: w[7],
        }
    }

    pub fn new(
        width: u32,
        height: u32,
        refresh_millihz: u32,
        dpi: u32,
        app_caps: u32,
        frame_mode: u32,
    ) -> (r: Self)
        ensures
            r == (ConfigMessage {
                magic: MAGIC_CONF,
                protocol_version: PROTOCOL_VERSION,
                width,
                height,
                refresh_millihz,
                dpi,
                app_caps,
                frame_mode,
            }),
    {
        ConfigMessage {
            magic: MAGIC_CONF,
            protocol_version: PROTOCOL_VERSION,
            width,
            height,
            refresh_millihz,
            dpi,
            app_caps,
            frame_mode,
        }
    }

    /// The same settings under the tag that the server answers with.
    pub fn as_config_update(self) -> (r: Self)
        ensures
            r == (ConfigMessage { magic: MAGIC_CONFU, ..self }),
    {
        ConfigMessage { magic: MAGIC_CONFU, ..self }
    }

    pub fn is_config_update(&self) -> (r: bool)
        ensures
            r == (self.magic == MAGIC_CONFU),
    {
        self.magic == MAGIC_CONFU
    }
}

/// One frame pushed to the App.
#[derive(Clone, Copy, Debug, PartialEq, Eq, Structural)]
pub struct FrameMessage {
    pub magic: u32,
    pub width: u32,
    pub height: u32,
    pub flags: u32,
}

impl FrameMessage {
    pub open spec fn words(self) -> Seq<u32> {
        seq![self.magic, self.width, self.height, self.flags]
    }

    pub open spec fn of_words(w: Seq<u32>) -> FrameMessage {
        FrameMessage { magic: w[0], width: w[1], height: w[2], flags: w[3] }
    }

    /// How many descriptors travel with this frame.
    pub open spec fn fds(self) -> nat {
        if self.flags & FRAME_CARRIES_FDS != 0 {
            1
        } else {
            0
        }
    }

    pub fn new(width: u32, height: u32) -> (r: Self)
        ensures
            r == (FrameMessage { magic: MAGIC_LAND, width, height, flags: FRAME_CARRIES_FDS }),
            r.fds() == 1,
    {
        assert(1u32 & 1u32 != 0) by (bit_vector);
        FrameMessage { magic: MAGIC_LAND, width, height, flags: FRAME_CARRIES_FDS }
    }

    pub fn carries_fds(&self) -> (r: bool)
        ensures
            r == (self.flags & FRAME_CARRIES_FDS != 0),
            r <==> self.fds() == 1,
    {
        self.flags & FRAME_CARRIES_FDS != 0
    }
}

/// The App is done with the frame it received.
#[derive(Clone, Copy, Debug, PartialEq, Eq, Structural)]
pub struct ReleaseMessage {
    pub magic: u32,
    pub _reserved: u32,
}

impl ReleaseMessage {
    pub open spec fn words(self) -> Seq<u32> {
        seq![self.magic, self._reserved]
    }

    pub open spec fn of_words(w: Seq<u32>) -> ReleaseMessage {
        ReleaseMessage { magic: w[0], _reserved: w[1] }
    }

    pub fn new() -> (r: Self)
        ensures
            r == (ReleaseMessage { magic: MAGIC_RLSE, _reserved: 0 }),
    {
        ReleaseMessage { magic: MAGIC_RLSE, _reserved: 0 }
    }
}

impl Default for ReleaseMessage {
    fn default() -> (r: Self)
        ensures
            r == (ReleaseMessage { magic: MAGIC_RLSE, _reserved: 0 }),
    {
        ReleaseMessage::new()
    }
}

/// One touch event. `x` and `y` are the bit patterns of IEEE 754 single
/// precision numbers, normalised to the surface.
#[derive(Clone, Copy, Debug)]
pub struct TouchMessage {
    pub magic: u32,
    pub touch_id: i32,
    pub x: u32,
    pub y: u32,
    pub phase: u32,
    pub time_ms: u32,
}

/// Numeric equality of two IEEE 754 single precision bit patterns: a NaN equals
/// nothing, the two zeros equal each other.
pub open spec fn float_bits_eq(a: u32, b: u32) -> bool {
    &&& a % 0x8000_0000 <= 0x7F80_0000
    &&& b % 0x8000_0000 <= 0x7F80_0000
    &&& a == b || (a % 0x8000_0000 == 0 && b % 0x8000_0000 == 0)
}

fn same_number(a: u32, b: u32) -> (r: bool)
    ensures
        r == float_bits_eq(a, b),
{
    let ma: u32 = a % 0x8000_0000;
    let mb: u32 = b % 0x8000_0000;
    ma <= 0x7F80_0000 && mb <= 0x7F80_0000 && (a == b || (ma == 0 && mb == 0))
}

impl TouchMessage {
    pub open spec fn words(self) -> Seq<u32> {
        seq![
            self.magic,
            self.touch_id as u32,
            self.x,
            self.y,
            self.phase,
            self.time_ms,
        ]
    }

    pub open spec fn of_words(w: Seq<u32>) -> TouchMessage {
        TouchMessage {
            magic: w[0],
            touch_id: w[1] as i32,
            x: w[2],
            y: w[3],
            phase: w[4],
            time_ms: w[5],
        }
    }

    pub fn new(touch_id: i32, x: u32, y: u32, phase: u32, time_ms: u32) -> (r: Self)
        ensures
            r == (TouchMessage { magic: MAGIC_TOUC, touch_id, x, y, phase, time_ms }),
    {
        TouchMessage { magic: MAGIC_TOUC, touch_id, x, y, phase, time_ms }
    }
}

impl PartialEq for TouchMessage {
    fn eq(&self, other: &Self) -> (r: bool) {
        self.magic == other.magic && self.touch_id == other.touch_id && same_number(
            self.x,
            other.x,
        ) && same_number(self.y, other.y) && self.phase == other.phase && self.time_ms
            == other.time_ms
    }
}

impl vstd::std_specs::cmp::PartialEqSpecImpl for TouchMessage {
    open spec fn obeys_eq_spec() -> bool {
        true
    }

    open spec fn eq_spec(&self, other: &Self) -> bool {
        &&& self.magic == other.magic
        &&& self.touch_id == other.touch_id
        &&& float_bits_eq(self.x, other.x)
        &&& float_bits_eq(self.y, other.y)
        &&& self.phase == other.phase
        &&& self.time_ms == other.time_ms
    }
}

/// One key event.
#[derive(Clone, Copy, Debug, PartialEq, Eq, Structural)]
pub struct KeyMessage {
    pub magic: u32,
    pub keycode: u32,
    pub state: u32,
    pub time_ms: u32,
}

impl KeyMessage {
    pub open spec fn words(self) -> Seq<u32> {
        seq![self.magic, self.keycode, self.state, self.time_ms]
    }

    pub open spec fn of_words(w: Seq<u32>) -> KeyMessage {
        KeyMessage { magic: w[0], keycode: w[1], state: w[2], time_ms: w[3] }
    }

    pub fn new(keycode: u32, state: u32, time_ms: u32) -> (r: Self)
        ensures
            r == (KeyMessage { magic: MAGIC_KEYM, keycode, state, time_ms }),
    {
        KeyMessage { magic: MAGIC_KEYM, keycode, state, time_ms }
    }
}

/// A message with the descriptors that travelled beside it.
#[derive(Debug)]
pub enum Message<F> {
    Config(ConfigMessage),
    /// The settings in effect, from the server to the App.
    ConfigUpdate(ConfigMessage),
    Frame(FrameMessage, Vec<F>),
    Release(ReleaseMessage),
    Touch(TouchMessage),
    Key(KeyMessage),
}

impl<F> Message<F> {
    pub open spec fn words(self) -> Seq<u32> {
        match self {
            Message::Config(m) => m.words(),
            Message::ConfigUpdate(m) => m.words(),
            Message::Frame(m, _) => m.words(),
            Message::Release(m) => m.words(),
            Message::Touch(m) => m.words(),
            Message::Key(m) => m.words(),
        }
    }

    /// The bytes that go on the wire.
    pub open spec fn bytes(self) -> Seq<u8> {
        crate::wire::words_bytes(self.words())
    }

    /// How many descriptors have to travel with the message.
    pub open spec fn fd_need(self) -> nat {
        match self {
            Message::Frame(m, _) => m.fds(),
            _ => 0,
        }
    }

    /// The descriptors that the message holds.
    pub open spec fn fds(self) -> Seq<F> {
        match self {
            Message::Frame(_, fds) => fds@,
            _ => seq![],
        }
    }

    /// The tag matches the variant, and a frame holds as many descriptors as
    /// its flags announce.
    pub open spec fn well_formed(self) -> bool {
        match self {
            Message::Config(m) => m.magic == MAGIC_CONF,
            Message::ConfigUpdate(m) => m.magic == MAGIC_CONFU,
            Message::Frame(m, fds) => m.magic == MAGIC_LAND && fds@.len() == m.fds(),
            Message::Release(m) => m.magic == MAGIC_RLSE,
            Message::Touch(m) => m.magic == MAGIC_TOUC,
            Message::Key(m) => m.magic == MAGIC_KEYM,
        }
    }
}

/// Frames compare by their header and by how many descriptors they hold.
impl<F> PartialEq for Message<F> {
    fn eq(&self, other: &Self) -> (r: bool) {
        match (self, other) {
            (Message::Config(a), Message::Config(b)) => *a == *b,
            (Message::ConfigUpdate(a), Message::ConfigUpdate(b)) => *a == *b,
            (Message::Frame(a, fa), Message::Frame(b, fb)) => *a == *b && fa.len() == fb.len(),
            (Message::Release(a), Message::Release(b)) => *a == *b,
            (Message::Touch(a), Message::Touch(b)) => *a == *b,
            (Message::Key(a), Message::Key(b)) => *a == *b,
            _ => false,
        }
    }
}

impl<F> vstd::std_specs::cmp::PartialEqSpecImpl for Message<F> {
    open spec fn obeys_eq_spec() -> bool {
        true
    }

    open spec fn eq_spec(&self, other: &Self) -> bool {
        match (self, other) {
            (Message::Config(a), Message::Config(b)) => a == b,
            (Message::ConfigUpdate(a), Message::ConfigUpdate(b)) => a == b,
            (Message::Frame(a, fa), Message::Frame(b, fb)) => a == b && fa@.len() == fb@.len(),
            (Message::Release(a), Message::Release(b)) => a == b,
            (Message::Touch(a), Message::Touch(b)) => vstd::std_specs::cmp::PartialEqSpec::eq_spec(
                a,
                b,
            ),
            (Message::Key(a), Message::Key(b)) => a == b,
            _ => false,
        }
    }
}

/// Why bytes and descriptors are no message.
#[derive(Clone, Copy, Debug, PartialEq, Eq, Structural)]
#[allow(inconsistent_fields)]
pub enum ProtoError {
    BadMagic { got: u32 },
    BadLength { expected: usize, got: usize },
    FdMismatch { expected: usize, got: usize },
}

impl ProtoError {
    /// The text of the error.
    pub open spec fn text(self) -> Seq<char> {
        match self {
            ProtoError::BadMagic { got } => "bad magic: 0x"@ + crate::text::hex(got as nat, 8),
            ProtoError::BadLength { expected, got } => "bad message length: expected "@
                + crate::text::decimal(expected as nat) + ", got "@ + crate::text::decimal(got as nat),
            ProtoError::FdMismatch { expected, got } => "fd count mismatch: expected "@
                + crate::text::decimal(expected as nat) + ", got "@ + crate::text::decimal(got as nat),
        }
    }

    /// A one-line description.
    pub fn to_text(&self) -> (r: String)
        ensures
            r@ == self.text(),
    {
        let mut out = String::new();
        match *self {
            ProtoError::BadMagic { got } => {
                out.append("bad magic: 0x");
                push_hex(&mut out, got as usize, 8);
            },
            ProtoError::BadLength { expected, got } => {
                out.append("bad message length: expected ");
                push_decimal(&mut out, expected);
                out.append(", got ");
                push_decimal(&mut out, got);
            },
            ProtoError::FdMismatch { expected, got } => {
                out.append("fd count mismatch: expected ");
                push_decimal(&mut out, expected);
                out.append(", got ");
                push_decimal(&mut out, got);
            },
        }
        assert(out@ =~= self.text());
        out
    }
}

/// The wire bytes of a message. Its descriptors travel beside them.
pub fn encode<F>(msg: &Message<F>) -> (r: Vec<u8>)
    ensures
        r@ == msg.bytes(),
{
    match msg {
        Message::Config(m) => encode_config(m),
        Message::ConfigUpdate(m) => encode_config(m),
        Message::Frame(m, _) => {
            let words: [u32; 4] = [m.magic, m.width, m.height, m.flags];
            assert(words@ =~= m.words());
            encode_words(words.as_slice())
        },
        Message::Release(m) => {
            let words: [u32; 2] = [m.magic, m._reserved];
            assert(words@ =~= m.words());
            encode_words(words.as_slice())
        },
        Message::Touch(m) => {
            let words: [u32; 6] = [
                m.magic,
                #[verifier::truncate]
                (m.touch_id as u32),
                m.x,
                m.y,
                m.phase,
                m.time_ms,
            ];
            assert(words@ =~= m.words());
            encode_words(words.as_slice())
        },
        Message::Key(m) => {
            let words: [u32; 4] = [m.magic, m.keycode, m.state, m.time_ms];
            assert(words@ =~= m.words());
            encode_words(words.as_slice())
        },
    }
}

fn encode_config(m: &ConfigMessage) -> (r: Vec<u8>)
    ensures
        r@ == crate::wire::words_bytes(m.words()),
{
    let words: [u32; 8] = [
        m.magic,
        m.protocol_version,
        m.width,
        m.height,
        m.refresh_millihz,
        m.dpi,
        m.app_caps,
        m.frame_mode,
    ];
    assert(words@ =~= m.words());
    encode_words(words.as_slice())
}

/// How many descriptors have to travel with the message.
pub fn fd_count<F>(msg: &Message<F>) -> (r: usize)
    ensures
        r == msg.fd_need(),
{
    match msg {
        Message::Frame(m, _) => {
            if m.carries_fds() {
                1
            } else {
                0
            }
        },
        _ => 0,
    }
}

/// What bytes and descriptors mean: the tag picks the variant, bytes behind the
/// message are ignored, and so are descriptors beside anything but a frame.
pub open spec fn decoded<F>(buf: Seq<u8>, fds: Vec<F>) -> Result<Message<F>, ProtoError> {
    let magic = crate::wire::le_word(buf, 0);
    if buf.len() < 4 {
        Err(ProtoError::BadLength { expected: 4, got: buf.len() as usize })
    } else if magic == MAGIC_CONF || magic == MAGIC_CONFU {
        if buf.len() < CONFIG_SIZE {
            Err(ProtoError::BadLength { expected: CONFIG_SIZE, got: buf.len() as usize })
        } else {
            let m = ConfigMessage::of_words(crate::wire::words_at(buf, 0, 8));
            if magic == MAGIC_CONF {
                Ok(Message::Config(m))
            } else {
                Ok(Message::ConfigUpdate(m))
            }
        }
    } else if magic == MAGIC_LAND {
        if buf.len() < FRAME_SIZE {
            Err(ProtoError::BadLength { expected: FRAME_SIZE, got: buf.len() as usize })
        } else {
            let m = FrameMessage::of_words(crate::wire::words_at(buf, 0, 4));
            if fds@.len() != m.fds() {
                Err(ProtoError::FdMismatch { expected: m.fds() as usize, got: fds@.len() as usize })
            } else {
                Ok(Message::Frame(m, fds))
            }
        }
    } else if magic == MAGIC_RLSE {
        if buf.len() < RELEASE_SIZE {
            Err(ProtoError::BadLength { expected: RELEASE_SIZE, got: buf.len() as usize })
        } else {
            Ok(Message::Release(ReleaseMessage::of_words(crate::wire::words_at(buf, 0, 2))))
        }
    } else if magic == MAGIC_TOUC {
        if buf.len() < TOUCH_SIZE {
            Err(ProtoError::BadLength { expected: TOUCH_SIZE, got: buf.len() as usize })
        } else {
            Ok(Message::Touch(TouchMessage::of_words(crate::wire::words_at(buf, 0, 6))))
        }
    } else if magic == MAGIC_KEYM {
        if buf.len() < KEY_SIZE {
            Err(ProtoError::BadLength { expected: KEY_SIZE, got: buf.len() as usize })
        } else {
            Ok(Message::Key(KeyMessage::of_words(crate::wire::words_at(buf, 0, 4))))
        }
    } else {
        Err(ProtoError::BadMagic { got: magic })
    }
}

fn check_len(buf: &[u8], expected: usize) -> (r: Result<(), ProtoError>)
    ensures
        r == (if buf@.len() < expected {
            Err::<(), ProtoError>(ProtoError::BadLength { expected, got: buf@.len() as usize })
        } else {
            Ok(())
        }),
{
    if buf.len() < expected {
        Err(ProtoError::BadLength { expected, got: buf.len() })
    } else {
        Ok(())
    }
}

/// Reads one message from the front of `buf`, with the descriptors that came
/// beside it.
pub fn decode<F>(buf: &[u8], fds: Vec<F>) -> (r: Result<Message<F>, ProtoError>)
    ensures
        r == decoded(buf@, fds),
{
    check_len(buf, 4)?;
    let magic: u32 = read_word(buf, 0);
    if magic == MAGIC_CONF || magic == MAGIC_CONFU {
        check_len(buf, CONFIG_SIZE)?;
        let w = read_words(buf, 0, 8);
        let m = ConfigMessage {
            magic: w[0],
            protocol_version: w[1],
            width: w[2],
            height: w[3],
            refresh_millihz: w[4],
            dpi: w[5],
            app_caps: w[6],
            frame_mode: w[7],
        };
        if magic == MAGIC_CONF {
            Ok(Message::Config(m))
        } else {
            Ok(Message::ConfigUpdate(m))
        }
    } else if magic == MAGIC_LAND {
        check_len(buf, FRAME_SIZE)?;
        let w = read_words(buf, 0, 4);
        let m = FrameMessage { magic: w[0], width: w[1], height: w[2], flags: w[3] };
        let expected: usize = if m.carries_fds() {
            1
        } else {
            0
        };
        if fds.len() != expected {
            Err(ProtoError::FdMismatch { expected, got: fds.len() })
        } else {
            Ok(Message::Frame(m, fds))
        }
    } else if magic == MAGIC_RLSE {
        check_len(buf, RELEASE_SIZE)?;
        let w = read_words(buf, 0, 2);
        Ok(Message::Release(ReleaseMessage { magic: w[0], _reserved: w[1] }))
    } else if magic == MAGIC_TOUC {
        check_len(buf, TOUCH_SIZE)?;
        let w = read_words(buf, 0, 6);
        Ok(
            Message::Touch(
                TouchMessage {
                    magic: w[0],
                    touch_id: #[verifier::truncate]
                    (w[1] as i32),
                    x: w[2],
                    y: w[3],
                    phase: w[4],
                    time_ms: w[5],
                },
            ),
        )
    } else if magic == MAGIC_KEYM {
        check_len(buf, KEY_SIZE)?;
        let w = read_words(buf, 0, 4);
        Ok(Message::Key(KeyMessage { magic: w[0], keycode: w[1], state: w[2], time_ms: w[3] }))
    } else {
        Err(ProtoError::BadMagic { got: magic })
    }
}

proof fn lemma_sign_round_trip()
    ensures
        forall|t: i32| #[trigger] ((t as u32) as i32) == t,
        forall|w: u32| #[trigger] ((w as i32) as u32) == w,
{
    assert(forall|t: i32| #[trigger] ((t as u32) as i32) == t) by (bit_vector);
    assert(forall|w: u32| #[trigger] ((w as i32) as u32) == w) by (bit_vector);
}

/// Sizes on the wire, by variant.
pub proof fn lemma_encoded_size<F>(m: Message<F>)
    ensures
        m.bytes().len() == (match m {
            Message::Config(_) => CONFIG_SIZE,
            Message::ConfigUpdate(_) => CONFIG_SIZE,
            Message::Frame(..) => FRAME_SIZE,
            Message::Release(_) => RELEASE_SIZE,
            Message::Touch(_) => TOUCH_SIZE,
            Message::Key(_) => KEY_SIZE,
        }),
{
}

/// What was encoded decodes to the same message, whatever bytes follow it, when
/// the descriptors that were sent come along.
pub proof fn lemma_decode_encode<F>(m: Message<F>, fds: Vec<F>, rest: Seq<u8>)
    requires
        m.well_formed(),
        m matches Message::Frame(_, held) ==> held == fds,
    ensures
        decoded(m.bytes() + rest, fds) == Ok::<Message<F>, ProtoError>(m),
{
    let buf = m.bytes() + rest;
    let words = m.words();
    crate::wire::lemma_words_of_bytes(words, seq![], rest);
    assert(seq![] + m.bytes() + rest =~= buf);
    assert(crate::wire::words_at(buf, 0, words.len()) == words);
    assert(crate::wire::le_word(buf, 0) == crate::wire::words_at(buf, 0, words.len())[0]);
    lemma_sign_round_trip();
}

/// What decodes is well formed, and encodes to the bytes it was decoded from.
pub proof fn lemma_encode_decode<F>(buf: Seq<u8>, fds: Vec<F>)
    requires
        decoded(buf, fds) is Ok,
    ensures
        ({
            let m = decoded(buf, fds)->Ok_0;
            &&& m.well_formed()
            &&& m.bytes().len() <= buf.len()
            &&& m.bytes() == buf.take(m.bytes().len() as int)
        }),
{
    let m = decoded(buf, fds)->Ok_0;
    let n = m.words().len();
    crate::wire::lemma_bytes_of_words(buf, 0, n);
    lemma_sign_round_trip();
    assert(m.words() =~= crate::wire::words_at(buf, 0, n));
    assert(crate::wire::le_word(buf, 0) == crate::wire::words_at(buf, 0, n)[0]);
    assert(buf.subrange(0, (4 * n) as int) =~= buf.take(m.bytes().len() as int));
}

/// Where the fields stand on the wire: word after word, the tag first.
pub proof fn lemma_layout<F>(m: Message<F>)
    ensures
        ({
            let b = m.bytes();
            match m {
                Message::Config(c) | Message::ConfigUpdate(c) => {
                    &&& b.len() == 32
                    &&& crate::wire::le_word(b, 0) == c.magic
                    &&& crate::wire::le_word(b, 4) == c.protocol_version
                    &&& crate::wire::le_word(b, 8) == c.width
                    &&& crate::wire::le_word(b, 12) == c.height
                    &&& crate::wire::le_word(b, 16) == c.refresh_millihz
                    &&& crate::wire::le_word(b, 20) == c.dpi
                    &&& crate::wire::le_word(b, 24) == c.app_caps
                    &&& crate::wire::le_word(b, 28) == c.frame_mode
                },
                Message::Frame(f, _) => {
                    &&& b.len() == 16
                    &&& crate::wire::le_word(b, 0) == f.magic
                    &&& crate::wire::le_word(b, 4) == f.width
                    &&& crate::wire::le_word(b, 8) == f.height
                    &&& crate::wire::le_word(b, 12) == f.flags
                },
                Message::Release(r) => {
                    &&& b.len() == 8
                    &&& crate::wire::le_word(b, 0) == r.magic
                    &&& crate::wire::le_word(b, 4) == r._reserved
                },
                Message::Touch(t) => {
                    &&& b.len() == 24
                    &&& crate::wire::le_word(b, 0) == t.magic
                    &&& crate::wire::le_word(b, 4) as i32 == t.touch_id
                    &&& crate::wire::le_word(b, 8) == t.x
                    &&& crate::wire::le_word(b, 12) == t.y
                    &&& crate::wire::le_word(b, 16) == t.phase
                    &&& crate::wire::le_word(b, 20) == t.time_ms
                },
                Message::Key(k) => {
                    &&& b.len() == 16
                    &&& crate::wire::le_word(b, 0) == k.magic
                    &&& crate::wire::le_word(b, 4) == k.keycode
                    &&& crate::wire::le_word(b, 8) == k.state
                    &&& crate::wire::le_word(b, 12) == k.time_ms
                },
            }
        }),
{
    let words = m.words();
    let b = m.bytes();
    crate::wire::lemma_words_of_bytes(words, seq![], seq![]);
    assert(seq![] + b + seq![] =~= b);
    let got = crate::wire::words_at(b, 0, words.len());
    assert forall|i: int| 0 <= i < words.len() implies crate::wire::le_word(b, 4 * i)
        == #[trigger] words[i] by {
        assert(got[i] == words[i]);
    }
    assert(words[0] == crate::wire::le_word(b, 0));
    assert(words[1] == crate::wire::le_word(b, 4));
    lemma_sign_round_trip();
    if words.len() >= 4 {
        assert(words[2] == crate::wire::le_word(b, 8));
        assert(words[3] == crate::wire::le_word(b, 12));
    }
    if words.len() >= 6 {
        assert(words[4] == crate::wire::le_word(b, 16));
        assert(words[5] == crate::wire::le_word(b, 20));
    }
    if words.len() >= 8 {
        assert(words[6] == crate::wire::le_word(b, 24));
        assert(words[7] == crate::wire::le_word(b, 28));
    }
}

/// The bytes that a message with this tag has at least. `None` for a tag that no
/// message has.
pub open spec fn size_of_tag(magic: u32) -> Option<usize> {
    if magic == 0x464E_4F43 || magic == 0x554E_4F43 {
        Some(32)
    } else if magic == 0x444E_414C || magic == 0x4D59_454B {
        Some(16)
    } else if magic == 0x4553_4C52 {
        Some(8)
    } else if magic == 0x4355_4F54 {
        Some(24)
    } else {
        None
    }
}

/// Bytes are a message exactly if they begin with a tag, are as many as that tag
/// asks for, and, for a frame, have beside them the descriptors that its flags
/// announce. Else the first of these that fails is told.
pub proof fn lemma_what_is_no_message<F>(buf: Seq<u8>, fds: Vec<F>)
    requires
        buf.len() <= usize::MAX,
    ensures
        ({
            let magic = crate::wire::le_word(buf, 0);
            let need = size_of_tag(magic);
            let r = decoded(buf, fds);
            if buf.len() < 4 {
                r == Err::<Message<F>, ProtoError>(
                    ProtoError::BadLength { expected: 4, got: buf.len() as usize },
                )
            } else if need is None {
                r == Err::<Message<F>, ProtoError>(ProtoError::BadMagic { got: magic })
            } else if buf.len() < need->Some_0 {
                r == Err::<Message<F>, ProtoError>(
                    ProtoError::BadLength { expected: need->Some_0, got: buf.len() as usize },
                )
            } else if magic == 0x444E_414C {
                let carried = (crate::wire::le_word(buf, 12) % 2) as usize;
                if fds@.len() == carried {
                    r is Ok
                } else {
                    r == Err::<Message<F>, ProtoError>(
                        ProtoError::FdMismatch { expected: carried, got: fds@.len() as usize },
                    )
                }
            } else {
                r is Ok
            }
        }),
{
    let flags = crate::wire::le_word(buf, 12);
    assert(flags & 1 == flags % 2) by (bit_vector);
    assert(crate::wire::words_at(buf, 0, 4)[3] == flags);
}

/// A message is of the kind that its tag names, and a frame has exactly the
/// descriptors that came beside it.
pub proof fn lemma_tag_names_the_kind<F>(buf: Seq<u8>, fds: Vec<F>)
    ensures
        decoded(buf, fds) matches Ok(m) ==> {
            let magic = crate::wire::le_word(buf, 0);
            &&& m is Config <==> magic == 0x464E_4F43
            &&& m is ConfigUpdate <==> magic == 0x554E_4F43
            &&& m is Frame <==> magic == 0x444E_414C
            &&& m is Release <==> magic == 0x4553_4C52
            &&& m is Touch <==> magic == 0x4355_4F54
            &&& m is Key <==> magic == 0x4D59_454B
            &&& m matches Message::Frame(_, held) ==> held == fds
        },
{
}

/// A descriptor travels with a frame whose lowest flag is set, and with nothing
/// else.
pub proof fn lemma_descriptors_by_flag<F>(m: Message<F>)
    ensures
        m.fd_need() == (match m {
            Message::Frame(f, _) => (f.flags % 2) as nat,
            _ => 0,
        }),
{
    if let Message::Frame(f, _) = m {
        let flags = f.flags;
        assert(flags & 1 == flags % 2) by (bit_vector);
    }
}

/// Coordinates compare as numbers: a number equals itself, both zeros are equal,
/// and what is no number equals nothing.
pub proof fn lemma_numbers_compare(a: u32, b: u32)
    ensures
        float_bits_eq(a, b) == float_bits_eq(b, a),
        float_bits_eq(a, a) <==> a <= 0x7F80_0000 || 0x8000_0000 <= a <= 0xFF80_0000,
        float_bits_eq(0, 0x8000_0000),
        float_bits_eq(a, b) ==> a == b || (a == 0 && b == 0x8000_0000) || (a == 0x8000_0000 && b
            == 0),
        float_bits_eq(a, a) && a == b ==> float_bits_eq(a, b),
{
}

/// An error names what was wrong, with the numbers in full.
pub proof fn lemma_errors_name_their_numbers(a: usize, b: usize, magic: u32)
    ensures
        (ProtoError::BadMagic { got: magic }).text() == "bad magic: 0x"@ + crate::text::hex(
            magic as nat,
            8,
        ),
        (ProtoError::BadLength { expected: a, got: b }).text() == "bad message length: expected "@
            + crate::text::decimal(a as nat) + ", got "@ + crate::text::decimal(b as nat),
        (ProtoError::FdMismatch { expected: a, got: b }).text() == "fd count mismatch: expected "@
            + crate::text::decimal(a as nat) + ", got "@ + crate::text::decimal(b as nat),
{
}

} // verus!
