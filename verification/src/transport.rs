//! Messages on a byte stream.
//!
//! Each message is preceded by its length as a 32-bit word. A read may end
//! inside a message, or bring several at once together with their descriptors.
//! Bytes and descriptors that are not consumed yet are kept; descriptors arrive
//! in the order of the messages they belong to, so each message takes the
//! leading ones.

use vstd::prelude::*;
use crate::proto::{
    ConfigMessage, FrameMessage, Message, ProtoError, decode, encode, fd_count, FRAME_CARRIES_FDS,
    MAGIC_LAND,
};
use crate::wire::{push_word, read_word};

verus! {

/// A longer message is taken for garbage in the length word.
pub const MAX_MSG_LEN: usize = 1048576;

/// Descriptors that one read has to have room for.
pub const MAX_RECV_FDS: usize = 16;

/// Bytes that one read has to have room for.
pub const RECV_BUF_LEN: usize = 65536;

const EPIPE: i32 = 32;

const ECONNRESET: i32 = 104;

const ENOTCONN: i32 = 107;

/// A message body behind its length word.
pub open spec fn framed(body: Seq<u8>) -> Seq<u8> {
    crate::wire::le_bytes(body.len() as u32) + body
}

/// How many descriptors belong to a message body.
pub open spec fn body_fds(body: Seq<u8>) -> nat {
    if body.len() >= 16 && crate::wire::le_word(body, 0) == MAGIC_LAND && crate::wire::le_word(
        body,
        12,
    ) & FRAME_CARRIES_FDS != 0 {
        1
    } else {
        0
    }
}

/// What the front of a stream holds.
pub enum Front<F> {
    /// Not all of a message yet.
    Partial,
    /// One message, its descriptors, and what follows.
    Whole { body: Seq<u8>, fds: Seq<F>, rest: Seq<u8>, rest_fds: Seq<F> },
}

/// The front of a stream, given the bytes and descriptors that have arrived. A
/// message whose descriptors are missing gets those that are there.
pub open spec fn front<F>(bytes: Seq<u8>, fds: Seq<F>) -> Front<F> {
    if bytes.len() < 4 || bytes.len() < 4 + crate::wire::le_word(bytes, 0) {
        Front::Partial
    } else {
        let end = 4 + crate::wire::le_word(bytes, 0);
        let body = bytes.subrange(4, end);
        let n = if body_fds(body) <= fds.len() { body_fds(body) as int } else { fds.len() as int };
        Front::Whole { body, fds: fds.take(n), rest: bytes.skip(end), rest_fds: fds.skip(n) }
    }
}

/// The length word announces more than a message may have.
pub open spec fn too_long(bytes: Seq<u8>) -> bool {
    bytes.len() >= 4 && crate::wire::le_word(bytes, 0) > MAX_MSG_LEN
}

/// `r` is what a message body with these descriptors decodes to.
pub open spec fn delivers<F>(
    body: Seq<u8>,
    fds: Seq<F>,
    r: Result<Message<F>, ProtoError>,
) -> bool {
    exists|held: Vec<F>| #[trigger] held@ == fds && r == crate::proto::decoded(body, held)
}

/// How many descriptors belong to a message body.
pub fn msg_fd_count(body: &[u8]) -> (r: usize)
    ensures
        r == body_fds(body@),
{
    if body.len() < 16 {
        return 0;
    }
    let magic: u32 = read_word(body, 0);
    let flags: u32 = read_word(body, 12);
    if magic == MAGIC_LAND && flags & FRAME_CARRIES_FDS != 0 {
        1
    } else {
        0
    }
}

/// A message body behind its length word.
pub fn frame_body(body: &[u8]) -> (r: Vec<u8>)
    requires
        body@.len() <= u32::MAX,
    ensures
        r@ == framed(body@),
{
    let mut out: Vec<u8> = Vec::new();
    push_word(&mut out, body.len() as u32);
    out.extend_from_slice(body);
    assert(out@ =~= framed(body@));
    out
}

/// Removes the first `n` items.
fn split_front<T>(v: &mut Vec<T>, n: usize) -> (r: Vec<T>)
    requires
        n <= old(v)@.len(),
    ensures
        r@ == old(v)@.take(n as int),
        final(v)@ == old(v)@.skip(n as int),
{
    let mut r = v.split_off(n);
    std::mem::swap(&mut r, v);
    assert(v@ =~= old(v)@.skip(n as int));
    r
}

/// Removes one whole message and its descriptors from the front, if all of it
/// is there.
pub fn take_message<F>(pending: &mut Vec<u8>, pending_fds: &mut Vec<F>) -> (r: Option<
    (Vec<u8>, Vec<F>),
>)
    ensures
        match front(old(pending)@, old(pending_fds)@) {
            Front::Partial => {
                &&& r is None
                &&& final(pending)@ == old(pending)@
                &&& final(pending_fds)@ == old(pending_fds)@
            },
            Front::Whole { body, fds, rest, rest_fds } => {
                &&& r is Some
                &&& r->Some_0.0@ == body
                &&& r->Some_0.1@ == fds
                &&& final(pending)@ == rest
                &&& final(pending_fds)@ == rest_fds
            },
        },
{
    if pending.len() < 4 {
        return None;
    }
    let msg_len: u32 = read_word(pending.as_slice(), 0);
    if ((pending.len() - 4) as u64) < msg_len as u64 {
        return None;
    }
    let mut body = split_front(pending, msg_len as usize + 4);
    let _ = split_front(&mut body, 4);
    assert(body@ =~= old(pending)@.subrange(4, msg_len + 4));
    let need: usize = msg_fd_count(body.as_slice());
    let take: usize = if need <= pending_fds.len() {
        need
    } else {
        pending_fds.len()
    };
    let fds = split_front(pending_fds, take);
    Some((body, fds))
}

/// The outcome of one read of the socket.
pub enum ReadOutcome<F> {
    /// Nothing has arrived.
    WouldBlock,
    /// The read failed with this error number.
    Failed(i32),
    /// What arrived. No bytes: the peer has closed.
    Data(Vec<u8>, Vec<F>),
}

/// Why a session is over.
#[derive(Clone, Copy, Debug, PartialEq, Eq, Structural)]
pub enum RecvError {
    /// The length word is out of range: the stream is out of step.
    UnreasonableLength { len: u32 },
    /// The bytes are no message.
    Invalid(ProtoError),
    /// The peer has closed the socket.
    PeerClosed,
    /// The read failed.
    Os(i32),
}

/// What to write for one message.
pub struct Outgoing {
    pub bytes: Vec<u8>,
    /// The descriptors of the message go along.
    pub with_fds: bool,
}

/// The server's end of a session: what has been read and not consumed.
pub struct Transport<F> {
    pending: Vec<u8>,
    pending_fds: Vec<F>,
}

impl<F> View for Transport<F> {
    type V = (Seq<u8>, Seq<F>);

    closed spec fn view(&self) -> (Seq<u8>, Seq<F>) {
        (self.pending@, self.pending_fds@)
    }
}

/// How a transport that holds `before` serves one message, and what it holds
/// afterwards.
pub open spec fn serves<F>(
    before: (Seq<u8>, Seq<F>),
    after: (Seq<u8>, Seq<F>),
    r: Result<Option<Message<F>>, RecvError>,
) -> bool {
    if too_long(before.0) {
        &&& r == Err::<Option<Message<F>>, RecvError>(
            RecvError::UnreasonableLength { len: crate::wire::le_word(before.0, 0) },
        )
        &&& after == before
    } else {
        match front(before.0, before.1) {
            Front::Partial => r == Ok::<Option<Message<F>>, RecvError>(None) && after == before,
            Front::Whole { body, fds, rest, rest_fds } => {
                &&& after == (rest, rest_fds)
                &&& match r {
                    Ok(Some(m)) => delivers(body, fds, Ok(m)),
                    Err(RecvError::Invalid(e)) => delivers(body, fds, Err(e)),
                    _ => false,
                }
            },
        }
    }
}

/// Whether a message is held, whole or known to be garbage.
pub open spec fn ready<F>(held: (Seq<u8>, Seq<F>)) -> bool {
    too_long(held.0) || front(held.0, held.1) is Whole
}

/// How a transport that holds `before` receives where a read, if it needs one,
/// comes to `got`: from what it holds where it can, and else with what was read.
pub open spec fn received_with<F>(
    before: (Seq<u8>, Seq<F>),
    after: (Seq<u8>, Seq<F>),
    got: ReadOutcome<F>,
    r: Result<Option<Message<F>>, RecvError>,
) -> bool {
    if ready(before) {
        serves(before, after, r)
    } else {
        match got {
            ReadOutcome::WouldBlock => {
                &&& r == Ok::<Option<Message<F>>, RecvError>(None)
                &&& after == before
            },
            ReadOutcome::Failed(e) => {
                &&& r == Err::<Option<Message<F>>, RecvError>(RecvError::Os(e))
                &&& after == before
            },
            ReadOutcome::Data(data, fds) => if data@.len() == 0 {
                &&& r == Err::<Option<Message<F>>, RecvError>(RecvError::PeerClosed)
                &&& after == before
            } else {
                serves((before.0 + data@, before.1 + fds@), after, r)
            },
        }
    }
}

/// How a transport that holds `before` receives. It reads only where nothing
/// that it holds can be served.
pub open spec fn received<F, R: FnOnce() -> ReadOutcome<F>>(
    before: (Seq<u8>, Seq<F>),
    after: (Seq<u8>, Seq<F>),
    read: R,
    r: Result<Option<Message<F>>, RecvError>,
) -> bool {
    if ready(before) {
        serves(before, after, r)
    } else {
        exists|got: ReadOutcome<F>| #[trigger]
            call_ensures(read, (), got) && received_with(before, after, got, r)
    }
}

impl<F> Transport<F> {
    pub fn new() -> (r: Self)
        ensures
            r@ == (Seq::<u8>::empty(), Seq::<F>::empty()),
    {
        Transport { pending: Vec::new(), pending_fds: Vec::new() }
    }

    /// The bytes that carry a message, and whether its descriptors go along.
    pub fn send(msg: &Message<F>) -> (r: Outgoing)
        ensures
            r.bytes@ == framed(msg.bytes()),
            r.with_fds == (msg.fd_need() > 0),
    {
        let body = encode(msg);
        proof {
            crate::proto::lemma_encoded_size(*msg);
        }
        Outgoing { bytes: frame_body(body.as_slice()), with_fds: fd_count(msg) > 0 }
    }

    /// Whether an error number of a write says that the peer is gone for good.
    /// Anything else is transient, and no reason to end the session.
    pub fn is_dead_peer(errno: i32) -> (r: bool)
        ensures
            r <==> errno == 32 || errno == 104 || errno == 107,
    {
        errno == EPIPE || errno == ECONNRESET || errno == ENOTCONN
    }

    /// Takes one whole message from what is held.
    fn take_pending_message(&mut self) -> (r: Result<Option<(Vec<u8>, Vec<F>)>, RecvError>)
        ensures
            if too_long(old(self)@.0) {
                &&& r == Err::<Option<(Vec<u8>, Vec<F>)>, RecvError>(
                    RecvError::UnreasonableLength { len: crate::wire::le_word(old(self)@.0, 0) },
                )
                &&& final(self)@ == old(self)@
            } else {
                match front(old(self)@.0, old(self)@.1) {
                    Front::Partial => {
                        &&& r == Ok::<Option<(Vec<u8>, Vec<F>)>, RecvError>(None)
                        &&& final(self)@ == old(self)@
                    },
                    Front::Whole { body, fds, rest, rest_fds } => {
                        &&& r matches Ok(Some(got)) && got.0@ == body && got.1@ == fds
                        &&& final(self)@ == (rest, rest_fds)
                    },
                }
            },
    {
        if self.pending.len() >= 4 {
            let len: u32 = read_word(self.pending.as_slice(), 0);
            if len as usize > MAX_MSG_LEN {
                return Err(RecvError::UnreasonableLength { len });
            }
        }
        Ok(take_message(&mut self.pending, &mut self.pending_fds))
    }

    /// Serves one message from what is held.
    fn serve(&mut self) -> (r: Result<Option<Message<F>>, RecvError>)
        ensures
            serves(old(self)@, final(self)@, r),
    {
        match self.take_pending_message() {
            Ok(Some((body, fds))) => {
                let ghost held = fds;
                match decode(body.as_slice(), fds) {
                    Ok(m) => {
                        assert(held@ == held@);
                        Ok(Some(m))
                    },
                    Err(e) => {
                        assert(held@ == held@);
                        Err(RecvError::Invalid(e))
                    },
                }
            },
            Ok(None) => Ok(None),
            Err(e) => Err(e),
        }
    }

    /// Receives one message. Reads only when no whole message is held.
    pub fn recv<R: FnOnce() -> ReadOutcome<F>>(&mut self, read: R) -> (r: Result<
        Option<Message<F>>,
        RecvError,
    >)
        requires
            !ready(old(self)@) ==> call_requires(read, ()),
        ensures
            received(old(self)@, final(self)@, read, r),
    {
        match self.serve() {
            Ok(None) => {},
            served => {
                return served;
            },
        }
        let got = read();
        match got {
            ReadOutcome::WouldBlock => Ok(None),
            ReadOutcome::Failed(e) => Err(RecvError::Os(e)),
            ReadOutcome::Data(data, fds) => {
                if data.len() == 0 {
                    return Err(RecvError::PeerClosed);
                }
                let mut data = data;
                let mut fds = fds;
                self.pending.append(&mut data);
                self.pending_fds.append(&mut fds);
                self.serve()
            },
        }
    }
}

/// The App's end of a session. It waits for whole messages, of any length.
pub struct PendingReader<F> {
    pending: Vec<u8>,
    pending_fds: Vec<F>,
}

impl<F> View for PendingReader<F> {
    type V = (Seq<u8>, Seq<F>);

    closed spec fn view(&self) -> (Seq<u8>, Seq<F>) {
        (self.pending@, self.pending_fds@)
    }
}

impl<F> PendingReader<F> {
    pub fn new() -> (r: Self)
        ensures
            r@ == (Seq::<u8>::empty(), Seq::<F>::empty()),
    {
        PendingReader { pending: Vec::new(), pending_fds: Vec::new() }
    }

    /// The next whole message and the descriptors that belong to it. `None`
    /// asks for another read.
    pub fn next_message(&mut self) -> (r: Option<(Vec<u8>, Vec<F>)>)
        ensures
            match front(old(self)@.0, old(self)@.1) {
                Front::Partial => r is None && final(self)@ == old(self)@,
                Front::Whole { body, fds, rest, rest_fds } => {
                    &&& r matches Some(got) && got.0@ == body && got.1@ == fds
                    &&& final(self)@ == (rest, rest_fds)
                },
            },
    {
        take_message(&mut self.pending, &mut self.pending_fds)
    }

    /// Takes in one read. No bytes: the socket is closed, which is an error.
    pub fn fill(&mut self, data: Vec<u8>, fds: Vec<F>) -> (r: Result<(), RecvError>)
        ensures
            data@.len() == 0 ==> r == Err::<(), RecvError>(RecvError::PeerClosed) && final(self)@
                == old(self)@,
            data@.len() > 0 ==> r == Ok::<(), RecvError>(()) && final(self)@ == (
                old(self)@.0 + data@,
                old(self)@.1 + fds@,
            ),
    {
        if data.len() == 0 {
            return Err(RecvError::PeerClosed);
        }
        let mut data = data;
        let mut fds = fds;
        self.pending.append(&mut data);
        self.pending_fds.append(&mut fds);
        Ok(())
    }
}

/// The server's session with the App. There is no handshake: each message
/// stands alone.
pub struct AppSession<F> {
    pub transport: Transport<F>,
}

impl<F> AppSession<F> {
    pub fn new(transport: Transport<F>) -> (r: Self)
        ensures
            r.transport == transport,
    {
        AppSession { transport }
    }

    /// Receives one message of the App.
    pub fn recv_message<R: FnOnce() -> ReadOutcome<F>>(&mut self, read: R) -> (r: Result<
        Option<Message<F>>,
        RecvError,
    >)
        requires
            !ready(old(self).transport@) ==> call_requires(read, ()),
        ensures
            received(old(self).transport@, final(self).transport@, read, r),
    {
        self.transport.recv(read)
    }

    /// The message that pushes a frame.
    pub fn send_frame(buf_w: u32, buf_h: u32, pixel_fd: F) -> (r: Message<F>)
        ensures
            r.well_formed(),
            r.fds() == seq![pixel_fd],
            r matches Message::Frame(m, _) && m.width == buf_w && m.height == buf_h && m.flags
                == FRAME_CARRIES_FDS,
    {
        let mut fds: Vec<F> = Vec::new();
        fds.push(pixel_fd);
        assert(fds@ =~= seq![pixel_fd]);
        Message::Frame(FrameMessage::new(buf_w, buf_h), fds)
    }

    /// The message that tells the App the settings in effect.
    pub fn send_config_update(w: u32, h: u32, refresh_millihz: u32, dpi: u32, frame_mode: u32) -> (r:
        Message<F>)
        ensures
            r == Message::<F>::ConfigUpdate(
                ConfigMessage {
                    magic: crate::proto::MAGIC_CONFU,
                    protocol_version: crate::proto::PROTOCOL_VERSION,
                    width: w,
                    height: h,
                    refresh_millihz,
                    dpi,
                    app_caps: 0,
                    frame_mode,
                },
            ),
            r.well_formed(),
    {
        Message::ConfigUpdate(
            ConfigMessage::new(w, h, refresh_millihz, dpi, 0, frame_mode).as_config_update(),
        )
    }
}

/// The transport and the codec agree on how many descriptors a message takes.
pub proof fn lemma_body_fds<F>(m: Message<F>)
    requires
        m.well_formed(),
    ensures
        body_fds(m.bytes()) == m.fd_need(),
{
    let words = m.words();
    crate::wire::lemma_words_of_bytes(words, seq![], seq![]);
    assert(seq![] + m.bytes() + seq![] =~= m.bytes());
    let got = crate::wire::words_at(m.bytes(), 0, words.len());
    assert(got[0] == words[0]);
    assert(crate::wire::le_word(m.bytes(), 0) == got[0]);
    if m is Frame {
        assert(got[3] == words[3]);
        assert(crate::wire::le_word(m.bytes(), 12) == got[3]);
    }
}

/// The first word of a framed body is the body's length, and the body follows it.
pub proof fn lemma_length_word(body: Seq<u8>, rest: Seq<u8>)
    requires
        body.len() <= u32::MAX,
    ensures
        crate::wire::le_word(framed(body) + rest, 0) == body.len(),
        framed(body).len() == 4 + body.len(),
        framed(body).skip(4) == body,
{
    assert(framed(body).skip(4) =~= body);
    let s = framed(body) + rest;
    let word = crate::wire::le_bytes(body.len() as u32);
    crate::wire::lemma_word_of_bytes(body.len() as u32);
    assert(s[0] == word[0]);
    assert(s[1] == word[1]);
    assert(s[2] == word[2]);
    assert(s[3] == word[3]);
}

/// A framed message at the front of a stream is what is taken, with its own
/// descriptors; everything behind it is left.
pub proof fn lemma_front_of_framed<F>(body: Seq<u8>, rest: Seq<u8>, fds: Seq<F>, rest_fds: Seq<F>)
    requires
        body.len() <= u32::MAX,
        fds.len() == body_fds(body),
    ensures
        front(framed(body) + rest, fds + rest_fds) == (Front::Whole { body, fds, rest, rest_fds }),
{
    let s = framed(body) + rest;
    let len = body.len() as u32;
    lemma_length_word(body, rest);
    assert(s.subrange(4, 4 + len) =~= body);
    assert(s.skip(4 + len) =~= rest);
    assert((fds + rest_fds).take(fds.len() as int) =~= fds);
    assert((fds + rest_fds).skip(fds.len() as int) =~= rest_fds);
}

/// `got` is the message `m`, with the same descriptors.
pub open spec fn same_message<F>(got: Message<F>, m: Message<F>) -> bool {
    match m {
        Message::Frame(h, _) => got matches Message::Frame(g, held) && g == h && held@ == m.fds(),
        _ => got == m,
    }
}

/// Every message that is sent arrives: the bytes and descriptors of a
/// well-formed message, with anything behind them, are served as that message.
pub proof fn lemma_sent_is_served<F>(
    m: Message<F>,
    rest: Seq<u8>,
    rest_fds: Seq<F>,
    after: (Seq<u8>, Seq<F>),
    r: Result<Option<Message<F>>, RecvError>,
)
    requires
        m.well_formed(),
        serves((framed(m.bytes()) + rest, m.fds() + rest_fds), after, r),
    ensures
        after == (rest, rest_fds),
        r matches Ok(Some(got)) && same_message(got, m),
{
    crate::proto::lemma_encoded_size(m);
    lemma_body_fds(m);
    lemma_front_of_framed(m.bytes(), rest, m.fds(), rest_fds);
    lemma_length_word(m.bytes(), rest);
    let outcome: Result<Message<F>, ProtoError> = match r {
        Ok(Some(got)) => Ok(got),
        Err(RecvError::Invalid(e)) => Err(e),
        _ => arbitrary(),
    };
    assert(delivers(m.bytes(), m.fds(), outcome));
    let held = choose|held: Vec<F>| #[trigger]
        held@ == m.fds() && outcome == crate::proto::decoded(m.bytes(), held);
    let same = match m {
        Message::Frame(h, _) => Message::Frame(h, held),
        other => other,
    };
    assert(same.words() == m.words());
    crate::proto::lemma_decode_encode(same, held, seq![]);
    assert(same.bytes() + seq![] =~= m.bytes());
}

/// All whole messages of a stream in order, and what is left.
pub struct Drained<F> {
    pub out: Seq<(Seq<u8>, Seq<F>)>,
    pub rest: Seq<u8>,
    pub rest_fds: Seq<F>,
}

pub open spec fn drain<F>(bytes: Seq<u8>, fds: Seq<F>) -> Drained<F>
    decreases bytes.len(),
{
    match front(bytes, fds) {
        Front::Partial => Drained { out: seq![], rest: bytes, rest_fds: fds },
        Front::Whole { body, fds: mine, rest, rest_fds } => {
            let later = drain(rest, rest_fds);
            Drained { out: seq![(body, mine)] + later.out, ..later }
        },
    }
}

/// Every whole message in the stream has its descriptors there.
pub open spec fn fds_in_time<F>(bytes: Seq<u8>, fds: Seq<F>) -> bool
    decreases bytes.len(),
{
    match front(bytes, fds) {
        Front::Partial => true,
        Front::Whole { body, fds: mine, rest, rest_fds } => mine.len() == body_fds(body)
            && fds_in_time(rest, rest_fds),
    }
}

/// How the stream is cut into reads makes no difference: consuming one read and
/// then the next yields the same messages as consuming both at once, as long as
/// descriptors arrive no later than the last byte of their message.
pub proof fn lemma_reads_do_not_matter<F>(
    bytes: Seq<u8>,
    fds: Seq<F>,
    more: Seq<u8>,
    more_fds: Seq<F>,
)
    requires
        fds_in_time(bytes, fds),
    ensures
        ({
            let first = drain(bytes, fds);
            let second = drain(first.rest + more, first.rest_fds + more_fds);
            let whole = drain(bytes + more, fds + more_fds);
            &&& whole.out == first.out + second.out
            &&& whole.rest == second.rest
            &&& whole.rest_fds == second.rest_fds
        }),
    decreases bytes.len(),
{
    let all = bytes + more;
    let all_fds = fds + more_fds;
    match front(bytes, fds) {
        Front::Partial => {
            assert(drain(bytes, fds).out + drain(all, all_fds).out =~= drain(all, all_fds).out);
        },
        Front::Whole { body, fds: mine, rest, rest_fds } => {
            lemma_reads_do_not_matter(rest, rest_fds, more, more_fds);
            let end = 4 + crate::wire::le_word(bytes, 0);
            assert(crate::wire::le_word(all, 0) == crate::wire::le_word(bytes, 0));
            assert(all.subrange(4, end) =~= body);
            assert(all.skip(end) =~= rest + more);
            let n = body_fds(body) as int;
            assert(all_fds.take(n) =~= mine);
            assert(all_fds.skip(n) =~= rest_fds + more_fds);
            let first = drain(rest, rest_fds);
            let second = drain(first.rest + more, first.rest_fds + more_fds);
            assert(seq![(body, mine)] + (first.out + second.out) =~= (seq![(body, mine)]
                + first.out) + second.out);
        },
    }
}

proof fn lemma_drain_cons<F>(head: (Seq<u8>, Seq<F>), bytes: Seq<u8>, fds: Seq<F>)
    requires
        head.0.len() <= u32::MAX,
        head.1.len() == body_fds(head.0),
    ensures
        ({
            let d = drain(framed(head.0) + bytes, head.1 + fds);
            let later = drain(bytes, fds);
            &&& d.out == seq![head] + later.out
            &&& d.rest == later.rest
            &&& d.rest_fds == later.rest_fds
        }),
        fds_in_time(framed(head.0) + bytes, head.1 + fds) == fds_in_time(bytes, fds),
{
    lemma_front_of_framed(head.0, bytes, head.1, fds);
}

/// The bytes of a run of messages.
pub open spec fn stream_bytes<F>(msgs: Seq<(Seq<u8>, Seq<F>)>) -> Seq<u8>
    decreases msgs.len(),
{
    if msgs.len() == 0 {
        seq![]
    } else {
        framed(msgs[0].0) + stream_bytes(msgs.drop_first())
    }
}

/// The descriptors of a run of messages.
pub open spec fn stream_fds<F>(msgs: Seq<(Seq<u8>, Seq<F>)>) -> Seq<F>
    decreases msgs.len(),
{
    if msgs.len() == 0 {
        seq![]
    } else {
        msgs[0].1 + stream_fds(msgs.drop_first())
    }
}

/// Messages sent back to back all arrive, in order, each with its own
/// descriptors, and nothing is left over.
pub proof fn lemma_stream_arrives<F>(msgs: Seq<(Seq<u8>, Seq<F>)>)
    requires
        forall|i: int|
            0 <= i < msgs.len() ==> (#[trigger] msgs[i]).0.len() <= u32::MAX && msgs[i].1.len()
                == body_fds(msgs[i].0),
    ensures
        ({
            let d = drain(stream_bytes(msgs), stream_fds(msgs));
            &&& d.out == msgs
            &&& d.rest == Seq::<u8>::empty()
            &&& d.rest_fds == Seq::<F>::empty()
        }),
        fds_in_time(stream_bytes(msgs), stream_fds(msgs)),
    decreases msgs.len(),
{
    if msgs.len() > 0 {
        let tail = msgs.drop_first();
        assert forall|i: int| 0 <= i < tail.len() implies (#[trigger] tail[i]).0.len() <= u32::MAX
            && tail[i].1.len() == body_fds(tail[i].0) by {
            assert(tail[i] == msgs[i + 1]);
        }
        lemma_stream_arrives(tail);
        lemma_drain_cons(msgs[0], stream_bytes(tail), stream_fds(tail));
        assert(seq![msgs[0]] + tail =~= msgs);
    }
}

/// The bodies and descriptors of messages, as they are sent.
pub open spec fn sent<F>(msgs: Seq<Message<F>>) -> Seq<(Seq<u8>, Seq<F>)> {
    msgs.map_values(|m: Message<F>| (m.bytes(), m.fds()))
}

/// What a peer has sent, or will send, and what has not been read yet.
#[verifier::ext_equal]
pub struct Wire<F> {
    pub bytes: Seq<u8>,
    pub fds: Seq<F>,
    /// The peer has closed the socket.
    pub closed: bool,
}

impl<F> Wire<F> {
    /// Nothing was read meanwhile. The peer may have closed.
    pub open spec fn waits(self, after: Wire<F>) -> bool {
        &&& after.bytes == self.bytes
        &&& after.fds == self.fds
        &&& self.closed ==> after.closed
    }

    /// A read came to `got` and leaves `after` unread. Bytes and descriptors
    /// come in order, as many at once as may be; descriptors are there for each
    /// message that is whole with what the reader already holds. Only a closed
    /// socket with nothing unread gives no bytes, and it does not block.
    pub open spec fn gives(
        self,
        held: (Seq<u8>, Seq<F>),
        got: ReadOutcome<F>,
        after: Wire<F>,
    ) -> bool {
        match got {
            ReadOutcome::WouldBlock => self.waits(after) && !(self.closed && self.bytes.len()
                == 0),
            ReadOutcome::Failed(_) => false,
            ReadOutcome::Data(data, fds) => {
                &&& self.bytes == data@ + after.bytes
                &&& self.fds == fds@ + after.fds
                &&& self.closed ==> after.closed
                &&& data@.len() == 0 ==> self.closed && self.bytes.len() == 0
                &&& fds_in_time(held.0 + data@, held.1 + fds@)
            },
        }
    }
}

/// Successive receives of one transport.
pub struct Receives<F> {
    /// What it holds, before each and after the last.
    pub held: Seq<(Seq<u8>, Seq<F>)>,
    /// What is unread, before each and after the last.
    pub wires: Seq<Wire<F>>,
    /// What a read comes to, if there is one.
    pub reads: Seq<ReadOutcome<F>>,
    pub results: Seq<Result<Option<Message<F>>, RecvError>>,
}

impl<F> Receives<F> {
    /// A fresh transport, and a peer that sends `msgs` back to back and nothing
    /// more.
    pub open spec fn begins(self, msgs: Seq<Message<F>>) -> bool {
        &&& self.held.len() == self.results.len() + 1
        &&& self.wires.len() == self.results.len() + 1
        &&& self.reads.len() == self.results.len()
        &&& self.held[0] == (Seq::<u8>::empty(), Seq::<F>::empty())
        &&& self.wires[0].bytes == stream_bytes(sent(msgs))
        &&& self.wires[0].fds == stream_fds(sent(msgs))
    }

    /// Receive `i` reads, if it reads, what is due.
    pub open spec fn is_wired(self, i: int) -> bool {
        if ready(self.held[i]) {
            self.wires[i].waits(self.wires[i + 1])
        } else {
            self.wires[i].gives(self.held[i], self.reads[i], self.wires[i + 1])
        }
    }

    /// Receive `i` is as its read makes it.
    pub open spec fn is_received(self, i: int) -> bool {
        received_with(self.held[i], self.held[i + 1], self.reads[i], self.results[i])
    }

    /// The messages of the first `n` receives.
    pub open spec fn arrived(self, n: int) -> Seq<Message<F>>
        decreases n,
    {
        if n <= 0 {
            seq![]
        } else {
            match self.results[n - 1] {
                Ok(Some(m)) => self.arrived(n - 1).push(m),
                _ => self.arrived(n - 1),
            }
        }
    }

    /// What the first `n` receives have come to: the first of `msgs`, each once
    /// and in order, and nothing else but `None`, until all have arrived and the
    /// peer has closed.
    pub open spec fn delivers_in_order(self, msgs: Seq<Message<F>>, n: int) -> bool {
        &&& self.arrived(n).len() <= msgs.len()
        &&& forall|j: int|
            0 <= j < self.arrived(n).len() ==> same_message(#[trigger] self.arrived(n)[j], msgs[j])
        &&& forall|i: int|
            0 <= i < n ==> match #[trigger] self.results[i] {
                Ok(Some(_)) => true,
                Ok(None) => !(self.arrived(i).len() == msgs.len() && self.wires[i].closed),
                Err(e) => e == RecvError::PeerClosed && self.arrived(i).len() == msgs.len()
                    && self.wires[i].closed,
            }
    }
}

/// What is held and what is unread make up the messages that are due.
spec fn due<F>(msgs: Seq<Message<F>>, held: (Seq<u8>, Seq<F>), wire: Wire<F>) -> bool {
    &&& forall|i: int| 0 <= i < msgs.len() ==> (#[trigger] msgs[i]).well_formed()
    &&& held.0 + wire.bytes == stream_bytes(sent(msgs))
    &&& held.1 + wire.fds == stream_fds(sent(msgs))
    &&& fds_in_time(held.0, held.1)
}

/// Serving what is held gives the next message that is due, if all of it is
/// there.
proof fn lemma_serves_due<F>(
    msgs: Seq<Message<F>>,
    held: (Seq<u8>, Seq<F>),
    wire: Wire<F>,
    after: (Seq<u8>, Seq<F>),
    r: Result<Option<Message<F>>, RecvError>,
)
    requires
        due(msgs, held, wire),
        serves(held, after, r),
    ensures
        !ready(held) ==> r == Ok::<Option<Message<F>>, RecvError>(None) && after == held,
        ready(held) ==> {
            &&& msgs.len() > 0
            &&& r matches Ok(Some(got)) && same_message(got, msgs[0])
            &&& due(msgs.drop_first(), after, wire)
        },
        wire.bytes.len() == 0 && !ready(held) ==> msgs.len() == 0,
{
    let all = held.0 + wire.bytes;
    let all_fds = held.1 + wire.fds;
    if msgs.len() > 0 {
        let m = msgs[0];
        let tail = msgs.drop_first();
        let body = m.bytes();
        let later = stream_bytes(sent(tail));
        let later_fds = stream_fds(sent(tail));
        assert(m.well_formed());
        crate::proto::lemma_encoded_size(m);
        lemma_body_fds(m);
        assert(sent(msgs)[0] == (body, m.fds()));
        assert(sent(msgs).drop_first() =~= sent(tail));
        assert(all == framed(body) + later);
        assert(all_fds == m.fds() + later_fds);
        lemma_front_of_framed(body, later, m.fds(), later_fds);
        let len = body.len() as u32;
        lemma_length_word(body, later);
        if held.0.len() >= 4 {
            assert(crate::wire::le_word(held.0, 0) == len) by {
                assert(held.0[0] == all[0]);
                assert(held.0[1] == all[1]);
                assert(held.0[2] == all[2]);
                assert(held.0[3] == all[3]);
            }
        }
        assert(!too_long(held.0));
        if ready(held) {
            let end = 4 + len;
            let n = m.fds().len() as int;
            let rest = held.0.skip(end);
            let rest_fds = held.1.skip(n);
            assert(held.0.subrange(4, end) =~= body) by {
                assert(all.subrange(4, end) =~= body);
                assert(held.0.subrange(4, end) =~= all.subrange(4, end));
            }
            assert(held.1.len() >= n);
            assert(held.0 =~= framed(body) + rest) by {
                assert(framed(body) =~= all.take(end));
            }
            assert(held.1 =~= m.fds() + rest_fds) by {
                assert(m.fds() =~= all_fds.take(n));
            }
            lemma_sent_is_served(m, rest, rest_fds, after, r);
            lemma_front_of_framed(body, rest, m.fds(), rest_fds);
            assert(rest + wire.bytes =~= later) by {
                assert(later =~= all.skip(end));
            }
            assert(rest_fds + wire.fds =~= later_fds) by {
                assert(later_fds =~= all_fds.skip(n));
            }
            assert forall|i: int| 0 <= i < tail.len() implies (#[trigger] tail[i]).well_formed() by {
                assert(tail[i] == msgs[i + 1]);
            }
        }
        if wire.bytes.len() == 0 {
            assert(held.0 =~= all);
        }
    } else {
        assert(sent(msgs).len() == 0);
        assert(all.len() == 0);
    }
}

/// One receive takes the next message that is due, or waits for it, or finds
/// that none is due and the peer has closed.
proof fn lemma_receive_due<F>(
    msgs: Seq<Message<F>>,
    held: (Seq<u8>, Seq<F>),
    wire: Wire<F>,
    got: ReadOutcome<F>,
    after: (Seq<u8>, Seq<F>),
    then: Wire<F>,
    r: Result<Option<Message<F>>, RecvError>,
)
    requires
        due(msgs, held, wire),
        received_with(held, after, got, r),
        ready(held) ==> wire.waits(then),
        !ready(held) ==> wire.gives(held, got, then),
    ensures
        match r {
            Ok(Some(m)) => {
                &&& msgs.len() > 0
                &&& same_message(m, msgs[0])
                &&& due(msgs.drop_first(), after, then)
            },
            Ok(None) => due(msgs, after, then) && !(msgs.len() == 0 && wire.closed),
            Err(e) => {
                &&& e == RecvError::PeerClosed
                &&& msgs.len() == 0 && wire.closed
                &&& due(msgs, after, then)
            },
        },
{
    if msgs.len() == 0 {
        assert(sent(msgs).len() == 0);
        assert((held.0 + wire.bytes).len() == 0);
        assert((held.1 + wire.fds).len() == 0);
        assert(wire.bytes.len() == 0 && wire.fds.len() == 0);
    }
    if ready(held) {
        lemma_serves_due(msgs, held, wire, after, r);
    } else {
        match got {
            ReadOutcome::Data(data, fds) => {
                if data@.len() == 0 {
                    let none = Ok::<Option<Message<F>>, RecvError>(None);
                    assert(serves(held, held, none));
                    lemma_serves_due(msgs, held, wire, held, none);
                    assert(then.bytes =~= wire.bytes);
                    assert(then.fds =~= wire.fds);
                } else {
                    let full = (held.0 + data@, held.1 + fds@);
                    assert(full.0 + then.bytes =~= held.0 + wire.bytes);
                    assert(full.1 + then.fds =~= held.1 + wire.fds);
                    lemma_serves_due(msgs, full, then, after, r);
                }
            },
            _ => {},
        }
    }
}

proof fn lemma_receives_due<F>(run: Receives<F>, msgs: Seq<Message<F>>, n: int)
    requires
        0 <= n <= run.results.len(),
        forall|i: int| 0 <= i < msgs.len() ==> (#[trigger] msgs[i]).well_formed(),
        run.begins(msgs),
        forall|i: int| 0 <= i < run.results.len() ==> #[trigger] run.is_wired(i),
        forall|i: int| 0 <= i < run.results.len() ==> #[trigger] run.is_received(i),
    ensures
        run.delivers_in_order(msgs, n),
        due(msgs.skip(run.arrived(n).len() as int), run.held[n], run.wires[n]),
    decreases n,
{
    if n == 0 {
        assert(msgs.skip(0) =~= msgs);
        assert(run.held[0].0 + run.wires[0].bytes =~= run.wires[0].bytes);
        assert(run.held[0].1 + run.wires[0].fds =~= run.wires[0].fds);
    } else {
        let i = n - 1;
        lemma_receives_due(run, msgs, i);
        let j = run.arrived(i).len() as int;
        let left = msgs.skip(j);
        assert(run.is_wired(i) && run.is_received(i));
        lemma_receive_due(
            left,
            run.held[i],
            run.wires[i],
            run.reads[i],
            run.held[n],
            run.wires[n],
            run.results[i],
        );
        if left.len() > 0 {
            assert(left[0] == msgs[j]);
            assert(left.drop_first() =~= msgs.skip(j + 1));
        }
    }
}

/// Messages that a peer sends back to back, and then closes, are received one by
/// one: however the stream is cut into reads, successive receives give each of
/// them once and in order, with the same descriptors, and between them nothing
/// but `None`. Once all have been received the closed peer is reported, by every
/// receive and not as `None`; it is never reported earlier. When all is read and
/// nothing held can be served, nothing is missing. Descriptors arrive no later
/// than the last byte of their message.
pub proof fn lemma_receives_are_in_order<F>(run: Receives<F>, msgs: Seq<Message<F>>)
    requires
        forall|i: int| 0 <= i < msgs.len() ==> (#[trigger] msgs[i]).well_formed(),
        run.begins(msgs),
        forall|i: int| 0 <= i < run.results.len() ==> #[trigger] run.is_wired(i),
        forall|i: int| 0 <= i < run.results.len() ==> #[trigger] run.is_received(i),
    ensures
        run.delivers_in_order(msgs, run.results.len() as int),
        run.wires.last().bytes.len() == 0 && !ready(run.held.last()) ==> run.arrived(
            run.results.len() as int,
        ).len() == msgs.len(),
{
    let n = run.results.len() as int;
    lemma_receives_due(run, msgs, n);
    let held = run.held[n];
    let left = msgs.skip(run.arrived(n).len() as int);
    if run.wires[n].bytes.len() == 0 && !ready(held) {
        lemma_serves_due(
            left,
            held,
            run.wires[n],
            held,
            Ok::<Option<Message<F>>, RecvError>(None),
        );
    }
}

/// The same of calls of `recv`, each with its own way to read.
pub proof fn lemma_recv_calls_are_in_order<F, R: FnOnce() -> ReadOutcome<F>>(
    run: Receives<F>,
    msgs: Seq<Message<F>>,
    sockets: Seq<R>,
)
    requires
        forall|i: int| 0 <= i < msgs.len() ==> (#[trigger] msgs[i]).well_formed(),
        run.begins(msgs),
        sockets.len() == run.results.len(),
        forall|i: int| 0 <= i < run.results.len() ==> #[trigger] run.is_wired(i),
        forall|i: int, got: ReadOutcome<F>|
            0 <= i < sockets.len() && #[trigger] call_ensures(sockets[i], (), got) ==> got
                == run.reads[i],
        forall|i: int|
            0 <= i < run.results.len() ==> received(
                run.held[i],
                run.held[i + 1],
                #[trigger] sockets[i],
                run.results[i],
            ),
    ensures
        run.delivers_in_order(msgs, run.results.len() as int),
        run.wires.last().bytes.len() == 0 && !ready(run.held.last()) ==> run.arrived(
            run.results.len() as int,
        ).len() == msgs.len(),
{
    assert forall|i: int| 0 <= i < run.results.len() implies #[trigger] run.is_received(i) by {
        let socket = sockets[i];
        assert(received(run.held[i], run.held[i + 1], socket, run.results[i]));
        if !ready(run.held[i]) {
            let got = choose|got: ReadOutcome<F>| #[trigger]
                call_ensures(socket, (), got) && received_with(
                    run.held[i],
                    run.held[i + 1],
                    got,
                    run.results[i],
                );
            assert(call_ensures(sockets[i], (), got));
        }
    }
    lemma_receives_are_in_order(run, msgs);
}

/// A length word beyond a mebibyte ends the session at once, whatever follows it;
/// nothing is consumed.
pub proof fn lemma_garbage_is_refused<F>(
    held: (Seq<u8>, Seq<F>),
    after: (Seq<u8>, Seq<F>),
    r: Result<Option<Message<F>>, RecvError>,
)
    requires
        held.0.len() >= 4,
        crate::wire::le_word(held.0, 0) > 1_048_576,
        serves(held, after, r),
    ensures
        r == Err::<Option<Message<F>>, RecvError>(
            RecvError::UnreasonableLength { len: crate::wire::le_word(held.0, 0) },
        ),
        after == held,
{
}

/// As long as a message is not whole nothing comes of what is held, and nothing is
/// lost of it.
pub proof fn lemma_partial_is_kept<F>(
    held: (Seq<u8>, Seq<F>),
    after: (Seq<u8>, Seq<F>),
    r: Result<Option<Message<F>>, RecvError>,
)
    requires
        held.0.len() < 4 || (crate::wire::le_word(held.0, 0) <= 1_048_576 && held.0.len() < 4
            + crate::wire::le_word(held.0, 0)),
        serves(held, after, r),
    ensures
        r == Ok::<Option<Message<F>>, RecvError>(None),
        after == held,
        !ready(held),
{
}

/// A whole message is consumed with its length word, message or not, and what
/// follows is kept. What is no message is told.
pub proof fn lemma_whole_is_consumed<F>(
    held: (Seq<u8>, Seq<F>),
    after: (Seq<u8>, Seq<F>),
    r: Result<Option<Message<F>>, RecvError>,
)
    requires
        held.0.len() >= 4,
        crate::wire::le_word(held.0, 0) <= 1_048_576,
        held.0.len() >= 4 + crate::wire::le_word(held.0, 0),
        serves(held, after, r),
    ensures
        ({
            let n = crate::wire::le_word(held.0, 0) as int;
            let body = held.0.subrange(4, 4 + n);
            &&& after.0 == held.0.skip(4 + n)
            &&& after.1 == held.1.skip(held.1.len() - after.1.len())
            &&& held.1.len() - 1 <= after.1.len() <= held.1.len()
            &&& after.1.len() < held.1.len() ==> crate::wire::le_word(body, 0) == 0x444E_414C
            &&& match r {
                Ok(Some(m)) => exists|fds: Vec<F>|
                    fds@ == held.1.take(held.1.len() - after.1.len())
                        && #[trigger] crate::proto::decoded(body, fds) == Ok::<
                        Message<F>,
                        ProtoError,
                    >(m),
                Err(RecvError::Invalid(e)) => exists|fds: Vec<F>|
                    fds@ == held.1.take(held.1.len() - after.1.len())
                        && #[trigger] crate::proto::decoded(body, fds) == Err::<
                        Message<F>,
                        ProtoError,
                    >(e),
                _ => false,
            }
        }),
{
    let n = crate::wire::le_word(held.0, 0) as int;
    let body = held.0.subrange(4, 4 + n);
    let used = held.1.len() - after.1.len();
    assert(after.1 =~= held.1.skip(used));
    match r {
        Ok(Some(m)) => {
            let fds = choose|fds: Vec<F>| #[trigger]
                fds@ == held.1.take(used) && Ok::<Message<F>, ProtoError>(m)
                    == crate::proto::decoded(body, fds);
            assert(crate::proto::decoded(body, fds) == Ok::<Message<F>, ProtoError>(m));
        },
        Err(RecvError::Invalid(e)) => {
            let fds = choose|fds: Vec<F>| #[trigger]
                fds@ == held.1.take(used) && Err::<Message<F>, ProtoError>(e)
                    == crate::proto::decoded(body, fds);
            assert(crate::proto::decoded(body, fds) == Err::<Message<F>, ProtoError>(e));
        },
        _ => {},
    }
}

/// A read that brings nothing changes nothing; a failed one is told by its number,
/// and an empty one means that the peer is gone.
pub proof fn lemma_reads_without_bytes<F>(
    held: (Seq<u8>, Seq<F>),
    after: (Seq<u8>, Seq<F>),
    got: ReadOutcome<F>,
    r: Result<Option<Message<F>>, RecvError>,
)
    requires
        !ready(held),
        received_with(held, after, got, r),
    ensures
        got is WouldBlock ==> r == Ok::<Option<Message<F>>, RecvError>(None) && after == held,
        got matches ReadOutcome::Failed(e) ==> r == Err::<Option<Message<F>>, RecvError>(
            RecvError::Os(e),
        ) && after == held,
        got matches ReadOutcome::Data(data, _) ==> data@.len() == 0 ==> r == Err::<
            Option<Message<F>>,
            RecvError,
        >(RecvError::PeerClosed) && after == held,
{
}

} // verus!
