//! The display's end of the land protocol: keeps the latest frame that a
//! compositor sent.

use vstd::prelude::*;
use crate::protocol::{FrameMessage, MessageHeader, MessageType, HEADER_SIZE};
use crate::socket_server::shift_down;

verus! {

/// Bytes that are kept of a connection.
pub const BUF_SIZE: usize = 4194304;

/// The bytes are none of the protocol's.
#[derive(Clone, Copy, Debug, PartialEq, Eq, Structural)]
pub struct BadHeader;

/// What is kept of a connection.
#[verifier::ext_equal]
pub struct IntakeState<F> {
    pub buf: Seq<u8>,
    /// How many bytes of the buffer are filled.
    pub buf_pos: nat,
    /// The frame that came last, with its first descriptor.
    pub latest: Option<(FrameMessage, F)>,
}

impl<F> IntakeState<F> {
    pub open spec fn wf(self) -> bool {
        self.buf.len() == BUF_SIZE && self.buf_pos <= BUF_SIZE
    }

    pub open spec fn header(self) -> MessageHeader {
        MessageHeader::at(self.buf, 0)
    }

    pub open spec fn total(self) -> nat {
        (HEADER_SIZE + self.header().length) as nat
    }

    pub open spec fn received(self, data: Seq<u8>) -> IntakeState<F> {
        IntakeState {
            buf: Seq::new(
                self.buf.len(),
                |i: int|
                    if self.buf_pos <= i < self.buf_pos + data.len() {
                        data[i - self.buf_pos]
                    } else {
                        self.buf[i]
                    },
            ),
            buf_pos: self.buf_pos + data.len(),
            ..self
        }
    }

    /// The state after the first message, to which `fds` belong.
    pub open spec fn advanced(self, fds: Seq<F>) -> IntakeState<F> {
        let n = self.total();
        let remaining = (self.buf_pos - n) as nat;
        IntakeState {
            buf: Seq::new(
                self.buf.len(),
                |i: int|
                    if i < remaining {
                        self.buf[n + i]
                    } else {
                        self.buf[i]
                    },
            ),
            buf_pos: remaining,
            latest: if self.header().msg_type == MessageType::Frame.code() && fds.len() > 0 {
                Some((FrameMessage::at(self.buf, HEADER_SIZE as int), fds[0]))
            } else {
                self.latest
            },
        }
    }

    /// Consumes all whole messages. The descriptors of a read belong to the
    /// first message that it completes.
    pub open spec fn parsed(self, fds: Seq<F>) -> (IntakeState<F>, Result<(), BadHeader>)
        decreases self.buf_pos,
    {
        if self.buf_pos < HEADER_SIZE {
            (self, Ok(()))
        } else if !self.header().valid() {
            (self, Err(BadHeader))
        } else if self.buf_pos < self.total() {
            (self, Ok(()))
        } else {
            self.advanced(fds).parsed(seq![])
        }
    }
}

pub struct FrameIntake<F> {
    buf: Vec<u8>,
    buf_pos: usize,
    latest: Option<(FrameMessage, F)>,
}

impl<F> View for FrameIntake<F> {
    type V = IntakeState<F>;

    closed spec fn view(&self) -> IntakeState<F> {
        IntakeState { buf: self.buf@, buf_pos: self.buf_pos as nat, latest: self.latest }
    }
}

impl<F> FrameIntake<F> {
    pub fn new() -> (r: Self)
        ensures
            r@ == (IntakeState {
                buf: Seq::new(BUF_SIZE as nat, |i: int| 0u8),
                buf_pos: 0,
                latest: None::<(FrameMessage, F)>,
            }),
            r@.wf(),
    {
        let r = FrameIntake { buf: vec![0u8; BUF_SIZE], buf_pos: 0, latest: None };
        assert(r@.buf =~= Seq::new(BUF_SIZE as nat, |i: int| 0u8));
        r
    }

    /// Bytes that the next read may bring.
    pub fn room(&self) -> (r: usize)
        requires
            self@.wf(),
        ensures
            r == BUF_SIZE - self@.buf_pos,
    {
        BUF_SIZE - self.buf_pos
    }

    /// Hands out the latest frame.
    pub fn take_latest(&mut self) -> (r: Option<(FrameMessage, F)>)
        ensures
            r == old(self)@.latest,
            final(self)@ == (IntakeState { latest: None, ..old(self)@ }),
    {
        self.latest.take()
    }

    /// Takes in one read of a compositor. Fails on bytes that are no header:
    /// the connection is then of no further use.
    pub fn handle_compositor(&mut self, data: &[u8], fds: Vec<F>) -> (r: Result<(), BadHeader>)
        requires
            old(self)@.wf(),
            old(self)@.buf_pos + data@.len() <= BUF_SIZE,
        ensures
            (final(self)@, r) == old(self)@.received(data@).parsed(fds@),
            final(self)@.wf(),
    {
        let ghost before = self@;
        let n: usize = data.len();
        let mut i: usize = 0;
        while i < n
            invariant
                i <= n,
                n == data@.len(),
                self.buf_pos + n <= BUF_SIZE,
                self.buf@.len() == BUF_SIZE,
                before.buf.len() == BUF_SIZE,
                self@ == (IntakeState { buf: self.buf@, ..before }),
                forall|k: int|
                    0 <= k < BUF_SIZE ==> #[trigger] self.buf@[k] == (if self.buf_pos <= k
                        < self.buf_pos + i {
                        data@[k - self.buf_pos]
                    } else {
                        before.buf[k]
                    }),
            decreases n - i,
        {
            let at: usize = self.buf_pos + i;
            self.buf[at] = data[i];
            i += 1;
        }
        self.buf_pos = self.buf_pos + n;
        let ghost whole = before.received(data@).parsed(fds@);
        assert(self.buf@ =~= before.received(data@).buf);
        assert(self@ =~= before.received(data@));
        let mut left: Vec<F> = fds;
        while self.buf_pos >= HEADER_SIZE
            invariant_except_break
                self@.parsed(left@) == whole,
            invariant
                self@.wf(),
                whole == old(self)@.received(data@).parsed(fds@),
            ensures
                (self@, Ok::<(), BadHeader>(())) == whole,
            decreases self.buf_pos,
        {
            let ghost c = self@;
            let ghost mine = left@;
            let header = MessageHeader::read(self.buf.as_slice());
            if !header.validate() {
                return Err(BadHeader);
            }
            if (self.buf_pos as u64) < HEADER_SIZE as u64 + header.length as u64 {
                break ;
            }
            let total: usize = HEADER_SIZE + header.length as usize;
            let mut rest: Vec<F> = Vec::new();
            std::mem::swap(&mut rest, &mut left);
            if header.msg_type == MessageType::Frame.as_u32() && rest.len() > 0 {
                let frame = FrameMessage::read(self.buf.as_slice(), HEADER_SIZE);
                let fd = rest.swap_remove(0);
                self.latest = Some((frame, fd));
            }
            shift_down(&mut self.buf, total, self.buf_pos);
            self.buf_pos = self.buf_pos - total;
            proof {
                assert(self@.buf =~= c.advanced(mine).buf);
                assert(self@ =~= c.advanced(mine));
                assert(left@ =~= seq![]);
            }
        }
        Ok(())
    }
}

/// A frame packet that arrives with descriptors becomes the latest frame, and
/// nothing of it stays behind.
pub proof fn lemma_latest_wins<F>(s: IntakeState<F>, m: FrameMessage, fds: Seq<F>)
    requires
        s.wf(),
        s.buf_pos == 0,
        fds.len() > 0,
    ensures
        ({
            let data = crate::protocol::packet(
                MessageType::Frame,
                crate::wire::words_bytes(m.words()),
            );
            let (t, r) = s.received(data).parsed(fds);
            &&& r is Ok
            &&& t.latest == Some((m, fds[0]))
            &&& t.buf_pos == 0
        }),
{
    let body = crate::wire::words_bytes(m.words());
    let h = MessageHeader {
        magic: crate::protocol::PROTOCOL_MAGIC,
        msg_type: MessageType::Frame.code(),
        length: body.len() as u32,
    };
    let head = crate::wire::words_bytes(h.words());
    let d = s.received(crate::protocol::packet(MessageType::Frame, body));
    let rest = d.buf.skip(36);
    assert(d.buf =~= head + body + rest);
    crate::protocol::lemma_header_round_trip(h, body + rest);
    assert(head + (body + rest) =~= d.buf);
    crate::protocol::lemma_frame_round_trip(m, head, rest);
    assert(d.header() == h);
    let e = d.advanced(fds);
    assert(e.buf_pos == 0);
    assert(d.parsed(fds) == e.parsed(seq![]));
    assert(e.parsed(seq![]) == (e, Ok::<(), BadHeader>(())));
}

/// A read is added behind what is kept.
pub proof fn lemma_read_is_added<F>(s: IntakeState<F>, data: Seq<u8>)
    requires
        s.wf(),
        s.buf_pos + data.len() <= BUF_SIZE,
    ensures
        ({
            let t = s.received(data);
            &&& t.buf_pos == s.buf_pos + data.len()
            &&& t.buf.take(t.buf_pos as int) == s.buf.take(s.buf_pos as int) + data
            &&& t.latest == s.latest
            &&& t.wf()
        }),
{
    let t = s.received(data);
    assert(t.buf.take(t.buf_pos as int) =~= s.buf.take(s.buf_pos as int) + data);
}

/// Of any message as many bytes are consumed as its header and its length say,
/// and what follows is kept. Only a frame that comes with a descriptor becomes the
/// latest.
pub proof fn lemma_message_is_consumed<F>(s: IntakeState<F>, fds: Seq<F>)
    requires
        s.wf(),
        s.buf_pos >= 12,
        MessageHeader::at(s.buf, 0).valid(),
        s.buf_pos >= 12 + MessageHeader::at(s.buf, 0).length,
    ensures
        ({
            let h = MessageHeader::at(s.buf, 0);
            let t = s.advanced(fds);
            &&& t.wf()
            &&& t.buf_pos == s.buf_pos - 12 - h.length
            &&& t.buf.take(t.buf_pos as int) == s.buf.subrange(12 + h.length, s.buf_pos as int)
            &&& h.msg_type != 0x4C41_4E01 || fds.len() == 0 ==> t.latest == s.latest
            &&& s.parsed(fds) == t.parsed(seq![])
        }),
{
    let h = MessageHeader::at(s.buf, 0);
    let t = s.advanced(fds);
    assert(t.buf.take(t.buf_pos as int) =~= s.buf.subrange(12 + h.length, s.buf_pos as int));
}

/// All whole frame packets are consumed. The descriptors of the read are those of
/// the first of them, which becomes the latest frame; without descriptors none
/// does. What is kept is what follows them.
pub proof fn lemma_frames_are_taken<F>(
    s: IntakeState<F>,
    ms: Seq<FrameMessage>,
    tail: Seq<u8>,
    fds: Seq<F>,
)
    requires
        s.wf(),
        s.buf.take(s.buf_pos as int) == crate::socket_server::frame_stream(ms) + tail,
        crate::socket_server::is_partial(tail),
    ensures
        ({
            let (t, r) = s.parsed(fds);
            &&& r is Ok
            &&& t.wf()
            &&& t.buf.take(t.buf_pos as int) == tail
            &&& t.latest == (if ms.len() > 0 && fds.len() > 0 {
                Some((ms[0], fds[0]))
            } else {
                s.latest
            })
        }),
    decreases ms.len(),
{
    if ms.len() == 0 {
        assert(crate::socket_server::frame_stream(ms) + tail =~= tail);
        if tail.len() >= 12 {
            crate::socket_server::lemma_same_header_of_front(s.buf, s.buf_pos as int);
        }
    } else {
        let m = ms[0];
        let later = crate::socket_server::frame_stream(ms.drop_first()) + tail;
        let body = crate::wire::words_bytes(m.words());
        let one = crate::protocol::packet(MessageType::Frame, body);
        crate::socket_server::lemma_frame_stream_first(ms);
        crate::socket_server::lemma_frame_header(m);
        let rest = later + s.buf.skip(s.buf_pos as int);
        assert(s.buf.take(s.buf_pos as int) =~= one + later);
        assert(s.buf =~= one + rest) by {
            assert(s.buf =~= s.buf.take(s.buf_pos as int) + s.buf.skip(s.buf_pos as int));
        }
        crate::socket_server::lemma_same_header(s.buf, one);
        let head = one.take(12);
        assert(one =~= head + body);
        assert(s.buf =~= head + body + rest);
        crate::protocol::lemma_frame_round_trip(m, head, rest);
        lemma_message_is_consumed(s, fds);
        let t = s.advanced(fds);
        assert(s.buf.subrange(36, s.buf_pos as int) =~= later) by {
            assert(s.buf.subrange(36, s.buf_pos as int) =~= (one + later).skip(36));
        }
        lemma_frames_are_taken(t, ms.drop_first(), tail, seq![]);
    }
}

/// Bytes that are no header are an error at once, and change nothing.
pub proof fn lemma_bad_header_ends_it<F>(s: IntakeState<F>, fds: Seq<F>)
    requires
        s.buf_pos >= 12,
        MessageHeader::at(s.buf, 0).magic != 0x4C41_4E00 || !(0x4C41_4E01 <= MessageHeader::at(
            s.buf,
            0,
        ).msg_type <= 0x4C41_4E03),
    ensures
        s.parsed(fds) == (s, Err::<(), BadHeader>(BadHeader)),
{
}

} // verus!
