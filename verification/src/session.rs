//! The App's side of a session: what it sends, and what it does with what it
//! receives.

use vstd::prelude::*;
use crate::frame_cache::frame_bytes;
use crate::proto::{encode, ConfigMessage, Message, ProtoError, ReleaseMessage};
use crate::transport::frame_body;

verus! {

/// Bytes that can safely be mapped: never more than the descriptor has. `stat`
/// is the size that the system reports; without one the frame counts as empty.
pub fn safe_mmap_len(stat: Option<u64>, requested: usize) -> (r: usize)
    ensures
        r == (match stat {
            None => 0,
            Some(size) => if size < requested {
                size as usize
            } else {
                requested
            },
        }),
{
    match stat {
        None => 0,
        Some(size) => if size < requested as u64 {
            size as usize
        } else {
            requested
        },
    }
}

/// The pixel descriptor of a received frame: its first one, if that has
/// anything in it. All others are dropped.
pub fn dispatch_frame<F, S: FnOnce(&F) -> Option<u64>>(
    width: u32,
    height: u32,
    fds: Vec<F>,
    stat: S,
) -> (r: Option<F>)
    requires
        crate::frame_cache::frame_len(width, height) <= usize::MAX,
        fds@.len() > 0 ==> call_requires(stat, (&fds@[0],)),
    ensures
        fds@.len() == 0 ==> r is None,
        fds@.len() > 0 ==> exists|size: Option<u64>| #[trigger]
            call_ensures(stat, (&fds@[0],), size) && r == (if size is Some && size->Some_0 > 0
                && crate::frame_cache::frame_len(width, height) > 0 {
                Some(fds@[0])
            } else {
                None
            }),
{
    let size: usize = frame_bytes(width, height);
    if fds.len() == 0 {
        return None;
    }
    let have = stat(&fds[0]);
    if safe_mmap_len(have, size) == 0 {
        return None;
    }
    let mut fds = fds;
    Some(fds.swap_remove(0))
}

/// What the App does with a message.
pub enum LoopStep<F> {
    /// Take the pixels over, then hand the frame back.
    Show { width: u32, height: u32, fds: Vec<F> },
    /// The server's settings.
    Configure(ConfigMessage),
    /// A message that only the App sends.
    Unexpected(Message<F>),
    /// The session is over.
    Fail(ProtoError),
}

/// What an App session writes, and how it goes on.
pub struct AppSession;

impl AppSession {
    /// The bytes that carry a message to the server.
    pub fn send_message<F>(msg: &Message<F>) -> (r: Vec<u8>)
        ensures
            r@ == crate::transport::framed(msg.bytes()),
    {
        let data = encode(msg);
        proof {
            crate::proto::lemma_encoded_size(*msg);
        }
        frame_body(data.as_slice())
    }

    /// The bytes that tell the server the display's settings.
    pub fn send_config(w: u32, h: u32, refresh_millihz: u32, dpi: u32, frame_mode: u32) -> (r: Vec<
        u8,
    >)
        ensures
            r@ == crate::transport::framed(
                Message::<u32>::Config(
                    ConfigMessage {
                        magic: crate::proto::MAGIC_CONF,
                        protocol_version: crate::proto::PROTOCOL_VERSION,
                        width: w,
                        height: h,
                        refresh_millihz,
                        dpi,
                        app_caps: 0,
                        frame_mode,
                    },
                ).bytes(),
            ),
    {
        let msg: Message<u32> = Message::Config(
            ConfigMessage::new(w, h, refresh_millihz, dpi, 0, frame_mode),
        );
        Self::send_message(&msg)
    }

    /// The bytes that hand a frame back to the server.
    pub fn send_release() -> (r: Vec<u8>)
        ensures
            r@ == crate::transport::framed(
                Message::<u32>::Release(
                    ReleaseMessage { magic: crate::proto::MAGIC_RLSE, _reserved: 0 },
                ).bytes(),
            ),
    {
        let msg: Message<u32> = Message::Release(ReleaseMessage::new());
        Self::send_message(&msg)
    }

    /// What follows from one received message.
    pub fn run_loop<F>(decoded: Result<Message<F>, ProtoError>) -> (r: LoopStep<F>)
        ensures
            r == (match decoded {
                Ok(Message::Frame(m, fds)) => LoopStep::Show {
                    width: m.width,
                    height: m.height,
                    fds,
                },
                Ok(Message::ConfigUpdate(c)) => LoopStep::Configure(c),
                Ok(other) => LoopStep::Unexpected(other),
                Err(e) => LoopStep::Fail(e),
            }),
    {
        match decoded {
            Ok(Message::Frame(m, fds)) => LoopStep::Show {
                width: m.width,
                height: m.height,
                fds,
            },
            Ok(Message::ConfigUpdate(c)) => LoopStep::Configure(c),
            Ok(other) => LoopStep::Unexpected(other),
            Err(e) => LoopStep::Fail(e),
        }
    }
}

} // verus!
