//! The relay daemon: cuts the bytes of each client into messages and says who
//! they go to.

use std::collections::HashMap;
use vstd::prelude::*;
use vstd::std_specs::hash::*;
use crate::forwarder::Forwarder;
use crate::protocol::{FrameMessage, MessageHeader, MessageType, TouchMessage, HEADER_SIZE};

verus! {

broadcast use vstd::std_specs::hash::group_hash_axioms;

/// Clients that the daemon reckons with.
pub const MAX_CLIENTS: usize = 16;

/// Bytes that are kept per client.
pub const BUF_SIZE: usize = 4194304;

#[derive(Clone, Copy, Debug, PartialEq, Eq, Structural)]
pub enum ClientRole {
    Compositor,
    App,
}

/// Why the daemon gives up.
#[derive(Clone, Copy, Debug, PartialEq, Eq, Structural)]
pub enum ServerError {
    /// A client sent more than its buffer holds.
    BufferOverflow,
    /// A header that is none of the protocol's.
    InvalidHeader,
    /// A read failed with this error number.
    Os(i32),
}

/// A message to pass on, and to which client.
#[derive(Debug)]
pub enum Relay<F> {
    Frame { target: i32, frame: FrameMessage, fds: Vec<F> },
    Touch { target: i32, touch: TouchMessage },
}

/// [`Relay`] as mathematics.
pub enum RelayView<F> {
    Frame { target: i32, frame: FrameMessage, fds: Seq<F> },
    Touch { target: i32, touch: TouchMessage },
}

impl<F> View for Relay<F> {
    type V = RelayView<F>;

    open spec fn view(&self) -> RelayView<F> {
        match self {
            Relay::Frame { target, frame, fds } => RelayView::Frame {
                target: *target,
                frame: *frame,
                fds: fds@,
            },
            Relay::Touch { target, touch } => RelayView::Touch { target: *target, touch: *touch },
        }
    }
}

pub open spec fn relay_views<F>(relays: Seq<Relay<F>>) -> Seq<RelayView<F>> {
    relays.map_values(|r: Relay<F>| r@)
}

struct Client<F> {
    role: Option<ClientRole>,
    buf: Vec<u8>,
    buf_pos: usize,
    pending_fds: Vec<F>,
}

/// What is kept of one client.
#[verifier::ext_equal]
pub struct ClientState<F> {
    /// Fixed by the first message.
    pub role: Option<ClientRole>,
    pub buf: Seq<u8>,
    /// How many bytes of the buffer are filled.
    pub buf_pos: nat,
    /// The descriptors of the last read.
    pub fds: Seq<F>,
}

impl<F> View for Client<F> {
    type V = ClientState<F>;

    closed spec fn view(&self) -> ClientState<F> {
        ClientState {
            role: self.role,
            buf: self.buf@,
            buf_pos: self.buf_pos as nat,
            fds: self.pending_fds@,
        }
    }
}

/// The role that a client's first message gives it.
pub open spec fn role_of(msg_type: u32) -> ClientRole {
    if msg_type == MessageType::Touch.code() {
        ClientRole::App
    } else {
        ClientRole::Compositor
    }
}

impl<F> ClientState<F> {
    pub open spec fn fresh() -> ClientState<F> {
        ClientState {
            role: None,
            buf: Seq::new(BUF_SIZE as nat, |i: int| 0u8),
            buf_pos: 0,
            fds: seq![],
        }
    }

    pub open spec fn wf(self) -> bool {
        self.buf.len() == BUF_SIZE && self.buf_pos < BUF_SIZE
    }

    pub open spec fn header(self) -> MessageHeader {
        MessageHeader::at(self.buf, 0)
    }

    /// Bytes of the first message with its header.
    pub open spec fn total(self) -> nat {
        (HEADER_SIZE + self.header().length) as nat
    }

    /// A read of `data` and `fds`.
    pub open spec fn received(self, data: Seq<u8>, fds: Seq<F>) -> ClientState<F> {
        ClientState {
            buf: Seq::new(
                self.buf.len(),
                |i: int|
                    if self.buf_pos <= i < self.buf_pos + data.len() {
                        data[i - self.buf_pos]
                    } else {
                        self.buf[i]
                    },
            ),
            buf_pos: self.buf_pos + data.len(),
            fds,
            ..self
        }
    }

    /// The first `n` bytes are done with; the rest moves to the front.
    pub open spec fn consumed(self, n: nat) -> ClientState<F> {
        let remaining = (self.buf_pos - n) as nat;
        ClientState {
            buf: Seq::new(
                self.buf.len(),
                |i: int|
                    if i < remaining {
                        self.buf[n + i]
                    } else {
                        self.buf[i]
                    },
            ),
            buf_pos: remaining,
            ..self
        }
    }
}

/// What processing a client's bytes comes to.
pub struct Processed<F> {
    pub client: ClientState<F>,
    pub forwarder: Forwarder,
    pub relays: Seq<RelayView<F>>,
    pub error: Option<ServerError>,
}

/// The forwarder once client `fd` has the role of its first message.
pub open spec fn registered<F>(fd: i32, c: ClientState<F>, f: Forwarder) -> Forwarder {
    if c.role is Some {
        f
    } else {
        match role_of(c.header().msg_type) {
            ClientRole::Compositor => Forwarder { compositor_fd: Some(fd), ..f },
            ClientRole::App => Forwarder { app_fd: Some(fd), ..f },
        }
    }
}

/// What the first message of a client leads to. Frames take all descriptors of
/// the last read along.
pub open spec fn relayed<F>(
    fd: i32,
    c: ClientState<F>,
    f: Forwarder,
    present: Set<i32>,
) -> Seq<RelayView<F>> {
    let t = c.header().msg_type;
    if t == MessageType::Frame.code() {
        match f.frame_target(fd) {
            Some(target) if present.contains(target) => seq![
                RelayView::Frame {
                    target,
                    frame: FrameMessage::at(c.buf, HEADER_SIZE as int),
                    fds: c.fds,
                },
            ],
            _ => seq![],
        }
    } else if t == MessageType::Touch.code() {
        match f.touch_target(fd) {
            Some(target) if present.contains(target) => seq![
                RelayView::Touch { target, touch: TouchMessage::at(c.buf, HEADER_SIZE as int) },
            ],
            _ => seq![],
        }
    } else {
        seq![]
    }
}

/// The client after its first message.
pub open spec fn advanced<F>(c: ClientState<F>) -> ClientState<F> {
    let t = c.header().msg_type;
    ClientState {
        role: Some(
            match c.role {
                Some(r) => r,
                None => role_of(t),
            },
        ),
        fds: if t == MessageType::Frame.code() {
            seq![]
        } else {
            c.fds
        },
        ..c.consumed(c.total())
    }
}

/// Processes all whole messages of client `fd`. `present` are the clients that
/// are connected.
pub open spec fn processed<F>(
    fd: i32,
    c: ClientState<F>,
    f: Forwarder,
    present: Set<i32>,
) -> Processed<F>
    decreases c.buf_pos,
{
    if c.buf_pos < HEADER_SIZE {
        Processed { client: c, forwarder: f, relays: seq![], error: None }
    } else if !c.header().valid() {
        Processed {
            client: c,
            forwarder: f,
            relays: seq![],
            error: Some(ServerError::InvalidHeader),
        }
    } else if c.buf_pos < c.total() {
        Processed { client: c, forwarder: f, relays: seq![], error: None }
    } else {
        let g = registered(fd, c, f);
        let later = processed(fd, advanced(c), g, present);
        Processed { relays: relayed(fd, c, g, present) + later.relays, ..later }
    }
}

/// One read of a client.
pub enum ClientRead<F> {
    WouldBlock,
    /// The connection was reset.
    Reset,
    Failed(i32),
    /// What arrived. No bytes: the client has closed.
    Data(Vec<u8>, Vec<F>),
}

/// What a read led to.
pub struct Handled<F> {
    /// Messages to pass on, in order.
    pub relays: Vec<Relay<F>>,
    /// The client is gone.
    pub removed: bool,
    /// The daemon has to give up.
    pub error: Option<ServerError>,
}

pub struct SocketServer<F> {
    clients: HashMap<i32, Client<F>>,
    forwarder: Forwarder,
}

/// What the daemon remembers.
#[verifier::ext_equal]
pub struct ServerState<F> {
    pub clients: Map<i32, ClientState<F>>,
    pub forwarder: Forwarder,
}

impl<F> View for SocketServer<F> {
    type V = ServerState<F>;

    closed spec fn view(&self) -> ServerState<F> {
        ServerState {
            clients: self.clients@.map_values(|c: Client<F>| c@),
            forwarder: self.forwarder,
        }
    }
}

impl<F> ServerState<F> {
    pub open spec fn wf(self) -> bool {
        forall|fd: i32| #[trigger] self.clients.contains_key(fd) ==> self.clients[fd].wf()
    }

    /// Without client `fd`, and without its role.
    pub open spec fn without(self, fd: i32) -> ServerState<F> {
        ServerState {
            clients: self.clients.remove(fd),
            forwarder: if !self.clients.contains_key(fd) {
                self.forwarder
            } else {
                match self.clients[fd].role {
                    None => self.forwarder,
                    Some(ClientRole::Compositor) => Forwarder {
                        compositor_fd: None,
                        ..self.forwarder
                    },
                    Some(ClientRole::App) => Forwarder { app_fd: None, ..self.forwarder },
                }
            },
        }
    }
}

/// Moves the bytes from `n` to the filled end to the front.
pub(crate) fn shift_down(buf: &mut Vec<u8>, n: usize, filled: usize)
    requires
        n <= filled <= old(buf)@.len(),
    ensures
        final(buf)@ == Seq::new(
            old(buf)@.len(),
            |i: int|
                if i < filled - n {
                    old(buf)@[n + i]
                } else {
                    old(buf)@[i]
                },
        ),
{
    let remaining: usize = filled - n;
    let ghost before = buf@;
    let mut i: usize = 0;
    while i < remaining
        invariant
            i <= remaining,
            remaining == filled - n,
            n <= filled <= before.len(),
            buf@.len() == before.len(),
            forall|k: int| 0 <= k < i ==> #[trigger] buf@[k] == before[n + k],
            forall|k: int| i <= k < before.len() ==> #[trigger] buf@[k] == before[k],
        decreases remaining - i,
    {
        let v: u8 = buf[n + i];
        buf[i] = v;
        i += 1;
    }
    assert(buf@ =~= Seq::new(
        before.len(),
        |i: int|
            if i < filled - n {
                before[n + i]
            } else {
                before[i]
            },
    ));
}

impl<F> Client<F> {
    fn fresh() -> (r: Self)
        ensures
            r@ == ClientState::<F>::fresh(),
            r@.wf(),
    {
        let r = Client {
            role: None,
            buf: vec![0u8; BUF_SIZE],
            buf_pos: 0,
            pending_fds: Vec::new(),
        };
        assert(r@ =~= ClientState::<F>::fresh());
        r
    }

    /// Takes a read in.
    fn receive(&mut self, data: &[u8], fds: Vec<F>)
        requires
            old(self)@.wf(),
            old(self)@.buf_pos + data@.len() <= BUF_SIZE,
        ensures
            final(self)@ == old(self)@.received(data@, fds@),
    {
        let n: usize = data.len();
        let ghost before = self@;
        let mut i: usize = 0;
        while i < n
            invariant
                i <= n,
                n == data@.len(),
                self.buf_pos + n <= BUF_SIZE,
                self.buf@.len() == BUF_SIZE,
                before.buf.len() == BUF_SIZE,
                self@ == (ClientState { buf: self.buf@, ..before }),
                forall|k: int|
                    0 <= k < BUF_SIZE ==> #[trigger] self.buf@[k] == (if self.buf_pos <= k
                        < self.buf_pos + i {
                        data@[k - self.buf_pos]
                    } else {
                        before.buf[k]
                    }),
            decreases n - i,
        {
            let at: usize = self.buf_pos + i;
            self.buf[at] = data[i];
            i += 1;
        }
        self.pending_fds = fds;
        self.buf_pos = self.buf_pos + n;
        assert(self.buf@ =~= before.received(data@, fds@).buf);
        assert(self@ =~= before.received(data@, fds@));
    }
}

impl<F> SocketServer<F> {
    pub fn new() -> (r: Self)
        ensures
            r@ == (ServerState {
                clients: Map::<i32, ClientState<F>>::empty(),
                forwarder: Forwarder { compositor_fd: None, app_fd: None },
            }),
            r@.wf(),
    {
        let r = SocketServer {
            clients: HashMap::with_capacity(MAX_CLIENTS),
            forwarder: Forwarder::new(),
        };
        assert(r@.clients =~= Map::<i32, ClientState<F>>::empty());
        r
    }

    /// A new connection, of no role yet.
    pub fn accept_client(&mut self, fd: i32)
        requires
            old(self)@.wf(),
        ensures
            final(self)@ == (ServerState {
                clients: old(self)@.clients.insert(fd, ClientState::<F>::fresh()),
                ..old(self)@
            }),
            final(self)@.wf(),
    {
        self.clients.insert(fd, Client::fresh());
        assert(self@.clients =~= old(self)@.clients.insert(fd, ClientState::<F>::fresh()));
    }

    /// Bytes that the next read of a client may bring. `None`: no such client.
    pub fn room(&self, fd: i32) -> (r: Option<usize>)
        requires
            self@.wf(),
        ensures
            r is Some <==> self@.clients.contains_key(fd),
            r matches Some(n) ==> n == BUF_SIZE - self@.clients[fd].buf_pos && n > 0,
    {
        match self.clients.get(&fd) {
            Some(c) => {
                assert(self@.clients.contains_key(fd));
                assert(self@.clients[fd] == c@);
                Some(BUF_SIZE - c.buf_pos)
            },
            None => None,
        }
    }

    /// Processes all whole messages that a client has sent.
    fn process_client(&mut self, fd: i32) -> (r: (Vec<Relay<F>>, Option<ServerError>))
        requires
            old(self)@.wf(),
            old(self)@.clients.contains_key(fd),
        ensures
            ({
                let p = processed(
                    fd,
                    old(self)@.clients[fd],
                    old(self)@.forwarder,
                    old(self)@.clients.dom(),
                );
                &&& relay_views(r.0@) == p.relays
                &&& r.1 == p.error
                &&& final(self)@ == (ServerState {
                    clients: old(self)@.clients.insert(fd, p.client),
                    forwarder: p.forwarder,
                })
            }),
            final(self)@.wf(),
    {
        let ghost start = self@;
        let ghost present = self@.clients.dom();
        let ghost whole = processed(fd, start.clients[fd], start.forwarder, present);
        let mut relays: Vec<Relay<F>> = Vec::new();
        let mut error: Option<ServerError> = None;
        assert(start.clients[fd].wf());
        assert(self.clients@.contains_key(fd));
        let mut client: Client<F> = match self.clients.remove(&fd) {
            Some(c) => c,
            None => Client::fresh(),
        };
        let ghost others = self.clients@;
        assert(client@ == start.clients[fd]);
        assert(self@.clients =~= start.clients.remove(fd));
        assert(relay_views(relays@) + whole.relays =~= whole.relays);
        let mut going: bool = true;
        while going
            invariant
                client@.wf(),
                self.clients@ == others,
                self@.clients == start.clients.remove(fd),
                present == start.clients.dom(),
                present.contains(fd),
                whole == processed(fd, start.clients[fd], start.forwarder, present),
                going ==> error is None,
                going ==> ({
                    let p = processed(fd, client@, self.forwarder, present);
                    &&& whole.relays == relay_views(relays@) + p.relays
                    &&& whole.client == p.client
                    &&& whole.forwarder == p.forwarder
                    &&& whole.error == p.error
                }),
                !going ==> {
                    &&& whole.relays == relay_views(relays@)
                    &&& whole.client == client@
                    &&& whole.forwarder == self.forwarder
                    &&& whole.error == error
                },
            decreases
                    client@.buf_pos + if going {
                        1int
                    } else {
                        0
                    },
        {
            let ghost c = client@;
            let ghost f = self.forwarder;
            let ghost done = relay_views(relays@);
            if client.buf_pos < HEADER_SIZE {
                assert(done + seq![] =~= done);
                going = false;
                continue ;
            }
            let header = MessageHeader::read(client.buf.as_slice());
            if !header.validate() {
                assert(done + seq![] =~= done);
                error = Some(ServerError::InvalidHeader);
                going = false;
                continue ;
            }
            if (client.buf_pos as u64) < HEADER_SIZE as u64 + header.length as u64 {
                assert(done + seq![] =~= done);
                going = false;
                continue ;
            }
            let total: usize = HEADER_SIZE + header.length as usize;
            let frame_type: bool = header.msg_type == MessageType::Frame.as_u32();
            let touch_type: bool = header.msg_type == MessageType::Touch.as_u32();
            if client.role.is_none() {
                if touch_type {
                    client.role = Some(ClientRole::App);
                    self.forwarder.register_app(fd);
                } else {
                    client.role = Some(ClientRole::Compositor);
                    self.forwarder.register_compositor(fd);
                }
            }
            let ghost g = self.forwarder;
            assert(g == registered(fd, c, f));
            if frame_type {
                let frame = FrameMessage::read(client.buf.as_slice(), HEADER_SIZE);
                let mut fds: Vec<F> = Vec::new();
                std::mem::swap(&mut fds, &mut client.pending_fds);
                if let Some(target) = self.forwarder.target_for_frame(fd) {
                    let there: bool = target == fd || self.clients.contains_key(&target);
                    assert(there == present.contains(target)) by {
                        assert(start.clients.remove(fd).contains_key(target)
                            == self.clients@.contains_key(target));
                    }
                    if there {
                        relays.push(Relay::Frame { target, frame, fds });
                    }
                }
            } else if touch_type {
                let touch = TouchMessage::read(client.buf.as_slice(), HEADER_SIZE);
                if let Some(target) = self.forwarder.target_for_touch(fd) {
                    let there: bool = target == fd || self.clients.contains_key(&target);
                    assert(there == present.contains(target)) by {
                        assert(start.clients.remove(fd).contains_key(target)
                            == self.clients@.contains_key(target));
                    }
                    if there {
                        relays.push(Relay::Touch { target, touch });
                    }
                }
            }
            assert(relay_views(relays@) =~= done + relayed(fd, c, g, present));
            shift_down(&mut client.buf, total, client.buf_pos);
            client.buf_pos = client.buf_pos - total;
            proof {
                assert(client@.buf =~= advanced(c).buf);
                assert(client@ =~= advanced(c));
                let later = processed(fd, advanced(c), g, present);
                assert(done + (relayed(fd, c, g, present) + later.relays) =~= (done + relayed(
                    fd,
                    c,
                    g,
                    present,
                )) + later.relays);
            }
        }
        self.clients.insert(fd, client);
        assert(self@.clients =~= start.clients.insert(fd, whole.client));
        (relays, error)
    }

    /// Acts on one read of a client.
    pub fn handle_client(&mut self, fd: i32, read: ClientRead<F>) -> (r: Handled<F>)
        requires
            old(self)@.wf(),
            read matches ClientRead::Data(data, _) ==> old(self)@.clients.contains_key(fd) ==> data@.len()
                + old(self)@.clients[fd].buf_pos <= BUF_SIZE,
        ensures
            final(self)@.wf(),
            ({
                let s = old(self)@;
                if !s.clients.contains_key(fd) {
                    &&& final(self)@ == s
                    &&& r.relays@.len() == 0 && !r.removed && r.error is None
                } else {
                    match read {
                        ClientRead::WouldBlock => {
                            &&& final(self)@ == s
                            &&& r.relays@.len() == 0 && !r.removed && r.error is None
                        },
                        ClientRead::Failed(e) => {
                            &&& final(self)@ == s
                            &&& r.relays@.len() == 0 && !r.removed
                            &&& r.error == Some(ServerError::Os(e))
                        },
                        ClientRead::Reset => {
                            &&& final(self)@ == s.without(fd)
                            &&& r.relays@.len() == 0 && r.removed && r.error is None
                        },
                        ClientRead::Data(data, fds) => if data@.len() == 0 {
                            &&& final(self)@ == s.without(fd)
                            &&& r.relays@.len() == 0 && r.removed && r.error is None
                        } else {
                            let c = s.clients[fd].received(data@, fds@);
                            &&& !r.removed
                            &&& if c.buf_pos == BUF_SIZE {
                                &&& final(self)@ == (ServerState {
                                    clients: s.clients.insert(fd, ClientState { buf_pos: 0, ..c }),
                                    ..s
                                })
                                &&& r.relays@.len() == 0
                                &&& r.error == Some(ServerError::BufferOverflow)
                            } else {
                                let p = processed(fd, c, s.forwarder, s.clients.dom());
                                &&& relay_views(r.relays@) == p.relays
                                &&& r.error == p.error
                                &&& final(self)@ == (ServerState {
                                    clients: s.clients.insert(fd, p.client),
                                    forwarder: p.forwarder,
                                })
                            }
                        },
                    }
                }
            }),
    {
        let ghost s = self@;
        if !self.clients.contains_key(&fd) {
            return Handled { relays: Vec::new(), removed: false, error: None };
        }
        assert(s.clients.contains_key(fd));
        assert(s.clients[fd].wf());
        match read {
            ClientRead::WouldBlock => Handled { relays: Vec::new(), removed: false, error: None },
            ClientRead::Failed(e) => Handled {
                relays: Vec::new(),
                removed: false,
                error: Some(ServerError::Os(e)),
            },
            ClientRead::Reset => {
                self.remove_client(fd);
                Handled { relays: Vec::new(), removed: true, error: None }
            },
            ClientRead::Data(data, fds) => {
                if data.len() == 0 {
                    self.remove_client(fd);
                    return Handled { relays: Vec::new(), removed: true, error: None };
                }
                let ghost c = s.clients[fd].received(data@, fds@);
                let mut client: Client<F> = match self.clients.remove(&fd) {
                    Some(c) => c,
                    None => Client::fresh(),
                };
                assert(client@ == s.clients[fd]);
                client.receive(data.as_slice(), fds);
                if client.buf_pos >= BUF_SIZE {
                    client.buf_pos = 0;
                    assert(client@ =~= (ClientState { buf_pos: 0, ..c }));
                    self.clients.insert(fd, client);
                    assert(self@.clients =~= s.clients.insert(fd, ClientState { buf_pos: 0, ..c }));
                    return Handled {
                        relays: Vec::new(),
                        removed: false,
                        error: Some(ServerError::BufferOverflow),
                    };
                }
                self.clients.insert(fd, client);
                assert(self@.clients =~= s.clients.insert(fd, c));
                assert(self@.clients.dom() =~= s.clients.dom());
                let (relays, error) = self.process_client(fd);
                assert(self@.clients =~= s.clients.insert(fd, self@.clients[fd]));
                Handled { relays, removed: false, error }
            },
        }
    }

    /// Forgets a client and its role.
    pub fn remove_client(&mut self, fd: i32)
        requires
            old(self)@.wf(),
        ensures
            final(self)@ == old(self)@.without(fd),
            final(self)@.wf(),
    {
        let ghost s = self@;
        let role: Option<ClientRole> = match self.clients.get(&fd) {
            Some(c) => {
                assert(s.clients[fd] == c@);
                c.role
            },
            None => None,
        };
        if let Some(r) = role {
            match r {
                ClientRole::Compositor => self.forwarder.unregister_compositor(),
                ClientRole::App => self.forwarder.unregister_app(),
            }
        }
        self.clients.remove(&fd);
        assert(self@.clients =~= s.clients.remove(fd));
    }
}

/// When processing ends without an error, no whole message is left.
pub proof fn lemma_nothing_whole_left<F>(
    fd: i32,
    c: ClientState<F>,
    f: Forwarder,
    present: Set<i32>,
)
    requires
        processed(fd, c, f, present).error is None,
    ensures
        ({
            let left = processed(fd, c, f, present).client;
            left.buf_pos < HEADER_SIZE || (left.header().valid() && left.buf_pos < left.total())
        }),
    decreases c.buf_pos,
{
    if c.buf_pos >= HEADER_SIZE && c.header().valid() && c.buf_pos >= c.total() {
        lemma_nothing_whole_left(fd, advanced(c), registered(fd, c, f), present);
    }
}

/// A frame packet from the compositor is passed on to the App, unchanged and
/// with its descriptors, and nothing of it stays behind.
pub proof fn lemma_frame_is_relayed<F>(
    fd: i32,
    app: i32,
    c: ClientState<F>,
    present: Set<i32>,
    m: FrameMessage,
    fds: Seq<F>,
)
    requires
        c.wf(),
        c.buf_pos == 0,
        c.role == Some(ClientRole::Compositor),
        present.contains(app),
    ensures
        ({
            let data = crate::protocol::packet(
                MessageType::Frame,
                crate::wire::words_bytes(m.words()),
            );
            let f = Forwarder { compositor_fd: Some(fd), app_fd: Some(app) };
            let p = processed(fd, c.received(data, fds), f, present);
            &&& p.relays == seq![RelayView::Frame { target: app, frame: m, fds }]
            &&& p.error is None
            &&& p.forwarder == f
            &&& p.client.buf_pos == 0
            &&& p.client.fds == Seq::<F>::empty()
        }),
{
    let body = crate::wire::words_bytes(m.words());
    let h = MessageHeader {
        magic: crate::protocol::PROTOCOL_MAGIC,
        msg_type: MessageType::Frame.code(),
        length: body.len() as u32,
    };
    let head = crate::wire::words_bytes(h.words());
    let data = crate::protocol::packet(MessageType::Frame, body);
    let f = Forwarder { compositor_fd: Some(fd), app_fd: Some(app) };
    let d = c.received(data, fds);
    let rest = d.buf.skip(36);
    assert(d.buf =~= head + body + rest);
    crate::protocol::lemma_header_round_trip(h, body + rest);
    assert(head + (body + rest) =~= d.buf);
    crate::protocol::lemma_frame_round_trip(m, head, rest);
    assert(d.header() == h);
    let e = advanced(d);
    assert(e.buf_pos == 0);
    let later = processed(fd, e, f, present);
    assert(later.relays == Seq::<RelayView<F>>::empty());
    let one = seq![RelayView::Frame { target: app, frame: m, fds }];
    assert(relayed(fd, d, f, present) =~= one);
    assert(one + later.relays =~= one);
}

/// A touch packet from the App is passed on to the compositor, unchanged, and
/// nothing of it stays behind.
pub proof fn lemma_touch_is_relayed<F>(
    fd: i32,
    compositor: i32,
    c: ClientState<F>,
    present: Set<i32>,
    m: TouchMessage,
    fds: Seq<F>,
)
    requires
        c.wf(),
        c.buf_pos == 0,
        c.role == Some(ClientRole::App),
        present.contains(compositor),
    ensures
        ({
            let data = crate::protocol::packet(MessageType::Touch, m.bytes());
            let f = Forwarder { compositor_fd: Some(compositor), app_fd: Some(fd) };
            let p = processed(fd, c.received(data, fds), f, present);
            &&& p.relays == seq![RelayView::<F>::Touch { target: compositor, touch: m }]
            &&& p.error is None
            &&& p.forwarder == f
            &&& p.client.buf_pos == 0
        }),
{
    let body = m.bytes();
    let h = MessageHeader {
        magic: crate::protocol::PROTOCOL_MAGIC,
        msg_type: MessageType::Touch.code(),
        length: body.len() as u32,
    };
    let head = crate::wire::words_bytes(h.words());
    let data = crate::protocol::packet(MessageType::Touch, body);
    let f = Forwarder { compositor_fd: Some(compositor), app_fd: Some(fd) };
    let d = c.received(data, fds);
    let rest = d.buf.skip(45);
    assert(d.buf =~= head + body + rest);
    crate::protocol::lemma_header_round_trip(h, body + rest);
    assert(head + (body + rest) =~= d.buf);
    crate::protocol::lemma_touch_round_trip(m, head, rest);
    assert(d.header() == h);
    let e = advanced(d);
    assert(e.buf_pos == 0);
    let later = processed(fd, e, f, present);
    assert(later.relays == Seq::<RelayView<F>>::empty());
    let one = seq![RelayView::<F>::Touch { target: compositor, touch: m }];
    assert(relayed(fd, d, f, present) =~= one);
    assert(one + later.relays =~= one);
}

/// The bytes of some reads, in order.
pub open spec fn bytes_of<F>(reads: Seq<(Seq<u8>, Seq<F>)>) -> Seq<u8>
    decreases reads.len(),
{
    if reads.len() == 0 {
        seq![]
    } else {
        bytes_of(reads.drop_last()) + reads.last().0
    }
}

/// What some reads of a client come to, one after the other.
pub open spec fn served<F>(
    fd: i32,
    c: ClientState<F>,
    f: Forwarder,
    present: Set<i32>,
    reads: Seq<(Seq<u8>, Seq<F>)>,
) -> Processed<F>
    decreases reads.len(),
{
    if reads.len() == 0 {
        Processed { client: c, forwarder: f, relays: seq![], error: None }
    } else {
        let before = served(fd, c, f, present, reads.drop_last());
        let (data, fds) = reads.last();
        let now = processed(fd, before.client.received(data, fds), before.forwarder, present);
        Processed { relays: before.relays + now.relays, ..now }
    }
}

/// The bytes are no whole message, and may become one.
pub open spec fn is_partial(bytes: Seq<u8>) -> bool {
    bytes.len() < 12 || (MessageHeader::at(bytes, 0).valid() && bytes.len() < 12
        + MessageHeader::at(bytes, 0).length)
}

/// Where the first twelve bytes are the same, so is the header.
pub(crate) proof fn lemma_same_header(a: Seq<u8>, b: Seq<u8>)
    requires
        a.len() >= 12,
        b.len() >= 12,
        forall|i: int| 0 <= i < 12 ==> a[i] == b[i],
    ensures
        MessageHeader::at(a, 0) == MessageHeader::at(b, 0),
{
}

pub(crate) proof fn lemma_same_header_of_front(a: Seq<u8>, n: int)
    requires
        12 <= n <= a.len(),
    ensures
        MessageHeader::at(a, 0) == MessageHeader::at(a.take(n), 0),
{
    lemma_same_header(a, a.take(n));
}

/// There is room for read `k`.
pub open spec fn fits_in<F>(
    fd: i32,
    c: ClientState<F>,
    f: Forwarder,
    present: Set<i32>,
    reads: Seq<(Seq<u8>, Seq<F>)>,
    k: int,
) -> bool {
    served(fd, c, f, present, reads.take(k)).client.buf_pos + reads[k].0.len() < BUF_SIZE
}

/// There is room for each of the reads.
pub open spec fn all_fit_in<F>(
    fd: i32,
    c: ClientState<F>,
    f: Forwarder,
    present: Set<i32>,
    reads: Seq<(Seq<u8>, Seq<F>)>,
) -> bool {
    forall|k: int| 0 <= k < reads.len() ==> #[trigger] fits_in(fd, c, f, present, reads, k)
}

/// Whole touch packets, one behind the other.
pub open spec fn touch_stream(ms: Seq<TouchMessage>) -> Seq<u8> {
    Seq::new(
        45 * ms.len(),
        |i: int| crate::protocol::packet(MessageType::Touch, ms[i / 45].bytes())[i % 45],
    )
}

/// A packet begins with a header that says what it is and how long.
proof fn lemma_touch_header(m: TouchMessage)
    ensures
        ({
            let p = crate::protocol::packet(MessageType::Touch, m.bytes());
            &&& p.len() == 45
            &&& MessageHeader::at(p, 0) == (MessageHeader {
                magic: crate::protocol::PROTOCOL_MAGIC,
                msg_type: MessageType::Touch.code(),
                length: 33,
            })
        }),
{
    let body = m.bytes();
    let h = MessageHeader {
        magic: crate::protocol::PROTOCOL_MAGIC,
        msg_type: MessageType::Touch.code(),
        length: body.len() as u32,
    };
    crate::protocol::lemma_header_round_trip(h, body);
}

/// The stream begins with the first packet.
proof fn lemma_touch_stream_first(ms: Seq<TouchMessage>)
    requires
        ms.len() > 0,
    ensures
        touch_stream(ms) == crate::protocol::packet(MessageType::Touch, ms[0].bytes()) + touch_stream(
            ms.drop_first(),
        ),
{
    let one = crate::protocol::packet(MessageType::Touch, ms[0].bytes());
    let later = ms.drop_first();
    lemma_touch_header(ms[0]);
    assert forall|i: int| 0 <= i < 45 * ms.len() implies touch_stream(ms)[i] == (one + touch_stream(
        later,
    ))[i] by {
        if i >= 45 {
            assert((i - 45) / 45 == i / 45 - 1 && (i - 45) % 45 == i % 45);
            assert(later[i / 45 - 1] == ms[i / 45]);
        }
    }
    assert(touch_stream(ms) =~= one + touch_stream(later));
}

/// Some packets of the stream are a stream.
proof fn lemma_touch_stream_part(ms: Seq<TouchMessage>, i0: int, i1: int)
    requires
        0 <= i0 <= i1 <= ms.len(),
    ensures
        touch_stream(ms).subrange(45 * i0, 45 * i1) == touch_stream(ms.subrange(i0, i1)),
{
    let part = ms.subrange(i0, i1);
    assert forall|i: int| 0 <= i < 45 * part.len() implies touch_stream(part)[i] == touch_stream(
        ms,
    )[45 * i0 + i] by {
        assert((45 * i0 + i) / 45 == i0 + i / 45 && (45 * i0 + i) % 45 == i % 45);
        assert(part[i / 45] == ms[i0 + i / 45]);
    }
    assert(touch_stream(ms).subrange(45 * i0, 45 * i1) =~= touch_stream(part));
}

/// The front of a packet is no whole packet.
proof fn lemma_touch_stream_cut(ms: Seq<TouchMessage>, n: int)
    requires
        0 <= n <= 45 * ms.len(),
    ensures
        is_partial(touch_stream(ms).subrange(45 * (n / 45), n)),
{
    let i1 = n / 45;
    let tail = touch_stream(ms).subrange(45 * i1, n);
    if tail.len() >= 12 {
        lemma_touch_header(ms[i1]);
        let p = crate::protocol::packet(MessageType::Touch, ms[i1].bytes());
        assert forall|i: int| 0 <= i < tail.len() implies tail[i] == p[i] by {
            assert((45 * i1 + i) / 45 == i1 && (45 * i1 + i) % 45 == i);
        }
        lemma_same_header(tail, p);
    }
}

/// One whole packet at the front is passed on and consumed.
#[verifier::spinoff_prover]
#[verifier::rlimit(50)]
proof fn lemma_one_touch<F>(
    fd: i32,
    target: i32,
    c: ClientState<F>,
    present: Set<i32>,
    m: TouchMessage,
    later: Seq<u8>,
)
    requires
        c.buf_pos <= c.buf.len(),
        c.role == Some(ClientRole::App),
        present.contains(target),
        c.buf.take(c.buf_pos as int) == crate::protocol::packet(MessageType::Touch, m.bytes())
            + later,
    ensures
        ({
            let f = Forwarder { compositor_fd: Some(target), app_fd: Some(fd) };
            let d = advanced(c);
            let p = processed(fd, c, f, present);
            let q = processed(fd, d, f, present);
            &&& d.buf_pos <= d.buf.len() == c.buf.len()
            &&& d.buf.take(d.buf_pos as int) == later
            &&& d.role == c.role
            &&& d.fds == c.fds
            &&& p.relays == seq![RelayView::<F>::Touch { target, touch: m }] + q.relays
            &&& p.client == q.client
            &&& p.forwarder == q.forwarder
            &&& p.error == q.error
        }),
{
    let f = Forwarder { compositor_fd: Some(target), app_fd: Some(fd) };
    let body = m.bytes();
    let one = crate::protocol::packet(MessageType::Touch, body);
    let rest = later + c.buf.skip(c.buf_pos as int);
    lemma_touch_header(m);
    assert(c.buf =~= one + rest) by {
        assert(c.buf =~= c.buf.take(c.buf_pos as int) + c.buf.skip(c.buf_pos as int));
        assert((one + later) + c.buf.skip(c.buf_pos as int) =~= one + rest);
    }
    lemma_same_header(c.buf, one);
    let head = one.take(12);
    assert(one =~= head + body);
    assert(c.buf =~= head + body + rest);
    crate::protocol::lemma_touch_round_trip(m, head, rest);
    let d = advanced(c);
    assert(d.buf_pos == later.len());
    assert(d.buf.take(d.buf_pos as int) =~= later) by {
        assert forall|i: int| 0 <= i < d.buf_pos implies d.buf[i] == later[i] by {
            assert(d.buf[i] == c.buf[45 + i]);
            assert(c.buf.take(c.buf_pos as int)[45 + i] == (one + later)[45 + i]);
        }
    }
    assert(relayed(fd, c, f, present) =~= seq![RelayView::<F>::Touch { target, touch: m }]);
}

/// All whole touch packets that the App has sent are passed on, one for one, in
/// order and unchanged. What is left is what follows them.
#[verifier::spinoff_prover]
#[verifier::rlimit(50)]
pub proof fn lemma_touches_are_relayed<F>(
    fd: i32,
    target: i32,
    c: ClientState<F>,
    present: Set<i32>,
    ms: Seq<TouchMessage>,
    tail: Seq<u8>,
)
    requires
        c.buf_pos <= c.buf.len(),
        c.role == Some(ClientRole::App),
        present.contains(target),
        c.buf.take(c.buf_pos as int) == touch_stream(ms) + tail,
        is_partial(tail),
    ensures
        ({
            let f = Forwarder { compositor_fd: Some(target), app_fd: Some(fd) };
            let p = processed(fd, c, f, present);
            &&& p.error is None
            &&& p.forwarder == f
            &&& p.relays.len() == ms.len()
            &&& forall|i: int|
                0 <= i < ms.len() ==> #[trigger] p.relays[i] == (RelayView::<F>::Touch { target, touch: ms[i] })
            &&& p.client.buf_pos <= p.client.buf.len() == c.buf.len()
            &&& p.client.buf.take(p.client.buf_pos as int) == tail
            &&& p.client.role == c.role
            &&& p.client.fds == c.fds
        }),
    decreases ms.len(),
{
    let f = Forwarder { compositor_fd: Some(target), app_fd: Some(fd) };
    if ms.len() == 0 {
        assert(touch_stream(ms) + tail =~= tail);
        if tail.len() >= 12 {
            lemma_same_header_of_front(c.buf, c.buf_pos as int);
        }
    } else {
        let m = ms[0];
        let later = ms.drop_first();
        let one = crate::protocol::packet(MessageType::Touch, m.bytes());
        lemma_touch_stream_first(ms);
        assert((one + touch_stream(later)) + tail =~= one + (touch_stream(later) + tail));
        lemma_one_touch(fd, target, c, present, m, touch_stream(later) + tail);
        let d = advanced(c);
        lemma_touches_are_relayed(fd, target, d, present, later, tail);
        let p = processed(fd, c, f, present);
        let q = processed(fd, d, f, present);
        assert forall|i: int| 0 <= i < ms.len() implies #[trigger] p.relays[i]
            == (RelayView::<F>::Touch { target, touch: ms[i] }) by {
            if i > 0 {
                assert(p.relays[i] == q.relays[i - 1]);
                assert(later[i - 1] == ms[i]);
            }
        }
    }
}

/// However the touch packets of the App are cut into reads, all of them are
/// passed on, one for one and in order; what is kept is what has come of the next
/// one.
#[verifier::spinoff_prover]
#[verifier::rlimit(50)]
pub proof fn lemma_touches_arrive_in_pieces<F>(
    fd: i32,
    target: i32,
    c: ClientState<F>,
    present: Set<i32>,
    ms: Seq<TouchMessage>,
    reads: Seq<(Seq<u8>, Seq<F>)>,
)
    requires
        c.wf(),
        c.buf_pos == 0,
        c.role == Some(ClientRole::App),
        present.contains(target),
        bytes_of(reads).len() <= 45 * ms.len(),
        bytes_of(reads) == touch_stream(ms).take(bytes_of(reads).len() as int),
        all_fit_in(fd, c, Forwarder { compositor_fd: Some(target), app_fd: Some(fd) }, present, reads),
    ensures
        ({
            let f = Forwarder { compositor_fd: Some(target), app_fd: Some(fd) };
            let p = served(fd, c, f, present, reads);
            let n = bytes_of(reads).len() as int;
            &&& p.error is None
            &&& p.forwarder == f
            &&& p.relays.len() == n / 45
            &&& forall|i: int|
                0 <= i < n / 45 ==> (#[trigger] p.relays[i] matches RelayView::Touch {
                    target: to,
                    touch: got,
                    ..
                } && to == target && got == ms[i])
            &&& p.client.buf_pos == n % 45
            &&& p.client.buf.take(p.client.buf_pos as int) == touch_stream(ms).subrange(
                45 * (n / 45),
                n,
            )
            &&& p.client.role == c.role
            &&& p.client.buf.len() == c.buf.len()
        }),
    decreases reads.len(),
{
    let f = Forwarder { compositor_fd: Some(target), app_fd: Some(fd) };
    let all = touch_stream(ms);
    let n = bytes_of(reads).len() as int;
    if reads.len() == 0 {
        assert(n == 0);
        assert(c.buf.take(0) =~= all.subrange(0, 0));
    } else {
        let front = reads.drop_last();
        let (data, fds) = reads.last();
        let k = bytes_of(front).len() as int;
        assert(n == k + data.len());
        assert(bytes_of(front) =~= all.take(k)) by {
            assert(bytes_of(reads).take(k) =~= bytes_of(front));
            assert(all.take(n).take(k) =~= all.take(k));
        }
        assert(all_fit_in(fd, c, f, present, front)) by {
            assert forall|j: int| 0 <= j < front.len() implies (#[trigger] fits_in(
                fd,
                c,
                f,
                present,
                front,
                j,
            )) by {
                assert(fits_in(fd, c, f, present, reads, j));
                assert(front.take(j) =~= reads.take(j));
                assert(front[j] == reads[j]);
            }
        }
        lemma_touches_arrive_in_pieces(fd, target, c, present, ms, front);
        let b = served(fd, c, f, present, front);
        assert(fits_in(fd, c, f, present, reads, reads.len() - 1));
        assert(reads.take(reads.len() - 1) =~= front);
        let d = b.client.received(data, fds);
        let i0 = k / 45;
        let i1 = n / 45;
        let part = ms.subrange(i0, i1);
        let tail = all.subrange(45 * i1, n);
        lemma_read_is_added(b.client, data, fds);
        lemma_touch_stream_part(ms, i0, i1);
        lemma_touch_stream_cut(ms, n);
        assert(d.buf.take(d.buf_pos as int) =~= touch_stream(part) + tail) by {
            assert(data =~= all.subrange(k, n)) by {
                assert(bytes_of(reads).skip(k) =~= data);
                assert(all.take(n).skip(k) =~= all.subrange(k, n));
            }
            assert(all.subrange(45 * i0, k) + all.subrange(k, n) =~= all.subrange(45 * i0, n));
            assert(all.subrange(45 * i0, 45 * i1) + tail =~= all.subrange(45 * i0, n));
        }
        lemma_touches_are_relayed(fd, target, d, present, part, tail);
        let q = processed(fd, d, f, present);
        let p = served(fd, c, f, present, reads);
        assert(p.relays == b.relays + q.relays);
        assert forall|i: int| 0 <= i < i1 implies (#[trigger] p.relays[i] matches RelayView::Touch {
            target: to,
            touch: got,
            ..
        } && to == target && got == ms[i]) by {
            if i < i0 {
                assert(p.relays[i] == b.relays[i]);
            } else {
                assert(p.relays[i] == q.relays[i - i0]);
                assert(part[i - i0] == ms[i]);
            }
        }
    }
}

/// Whole frame packets, one behind the other.
pub open spec fn frame_stream(ms: Seq<FrameMessage>) -> Seq<u8> {
    Seq::new(
        36 * ms.len(),
        |i: int| crate::protocol::packet(MessageType::Frame, crate::wire::words_bytes(ms[i / 36].words()))[i % 36],
    )
}

/// A packet begins with a header that says what it is and how long.
pub(crate) proof fn lemma_frame_header(m: FrameMessage)
    ensures
        ({
            let p = crate::protocol::packet(MessageType::Frame, crate::wire::words_bytes(m.words()));
            &&& p.len() == 36
            &&& MessageHeader::at(p, 0) == (MessageHeader {
                magic: crate::protocol::PROTOCOL_MAGIC,
                msg_type: MessageType::Frame.code(),
                length: 24,
            })
        }),
{
    let body = crate::wire::words_bytes(m.words());
    let h = MessageHeader {
        magic: crate::protocol::PROTOCOL_MAGIC,
        msg_type: MessageType::Frame.code(),
        length: body.len() as u32,
    };
    crate::protocol::lemma_header_round_trip(h, body);
}

/// The stream begins with the first packet.
pub(crate) proof fn lemma_frame_stream_first(ms: Seq<FrameMessage>)
    requires
        ms.len() > 0,
    ensures
        frame_stream(ms) == crate::protocol::packet(MessageType::Frame, crate::wire::words_bytes(ms[0].words())) + frame_stream(
            ms.drop_first(),
        ),
{
    let one = crate::protocol::packet(MessageType::Frame, crate::wire::words_bytes(ms[0].words()));
    let later = ms.drop_first();
    lemma_frame_header(ms[0]);
    assert forall|i: int| 0 <= i < 36 * ms.len() implies frame_stream(ms)[i] == (one + frame_stream(
        later,
    ))[i] by {
        if i >= 36 {
            assert((i - 36) / 36 == i / 36 - 1 && (i - 36) % 36 == i % 36);
            assert(later[i / 36 - 1] == ms[i / 36]);
        }
    }
    assert(frame_stream(ms) =~= one + frame_stream(later));
}

/// Some packets of the stream are a stream.
proof fn lemma_frame_stream_part(ms: Seq<FrameMessage>, i0: int, i1: int)
    requires
        0 <= i0 <= i1 <= ms.len(),
    ensures
        frame_stream(ms).subrange(36 * i0, 36 * i1) == frame_stream(ms.subrange(i0, i1)),
{
    let part = ms.subrange(i0, i1);
    assert forall|i: int| 0 <= i < 36 * part.len() implies frame_stream(part)[i] == frame_stream(
        ms,
    )[36 * i0 + i] by {
        assert((36 * i0 + i) / 36 == i0 + i / 36 && (36 * i0 + i) % 36 == i % 36);
        assert(part[i / 36] == ms[i0 + i / 36]);
    }
    assert(frame_stream(ms).subrange(36 * i0, 36 * i1) =~= frame_stream(part));
}

/// The front of a packet is no whole packet.
proof fn lemma_frame_stream_cut(ms: Seq<FrameMessage>, n: int)
    requires
        0 <= n <= 36 * ms.len(),
    ensures
        is_partial(frame_stream(ms).subrange(36 * (n / 36), n)),
{
    let i1 = n / 36;
    let tail = frame_stream(ms).subrange(36 * i1, n);
    if tail.len() >= 12 {
        lemma_frame_header(ms[i1]);
        let p = crate::protocol::packet(MessageType::Frame, crate::wire::words_bytes(ms[i1].words()));
        assert forall|i: int| 0 <= i < tail.len() implies tail[i] == p[i] by {
            assert((36 * i1 + i) / 36 == i1 && (36 * i1 + i) % 36 == i);
        }
        lemma_same_header(tail, p);
    }
}

/// One whole packet at the front is passed on and consumed.
#[verifier::spinoff_prover]
#[verifier::rlimit(50)]
proof fn lemma_one_frame<F>(
    fd: i32,
    target: i32,
    c: ClientState<F>,
    present: Set<i32>,
    m: FrameMessage,
    later: Seq<u8>,
)
    requires
        c.buf_pos <= c.buf.len(),
        c.role == Some(ClientRole::Compositor),
        present.contains(target),
        c.buf.take(c.buf_pos as int) == crate::protocol::packet(MessageType::Frame, crate::wire::words_bytes(m.words()))
            + later,
    ensures
        ({
            let f = Forwarder { compositor_fd: Some(fd), app_fd: Some(target) };
            let d = advanced(c);
            let p = processed(fd, c, f, present);
            let q = processed(fd, d, f, present);
            &&& d.buf_pos <= d.buf.len() == c.buf.len()
            &&& d.buf.take(d.buf_pos as int) == later
            &&& d.role == c.role
            &&& d.fds == Seq::<F>::empty()
            &&& p.relays == seq![RelayView::Frame { target, frame: m, fds: c.fds }] + q.relays
            &&& p.client == q.client
            &&& p.forwarder == q.forwarder
            &&& p.error == q.error
        }),
{
    let f = Forwarder { compositor_fd: Some(fd), app_fd: Some(target) };
    let body = crate::wire::words_bytes(m.words());
    let one = crate::protocol::packet(MessageType::Frame, body);
    let rest = later + c.buf.skip(c.buf_pos as int);
    lemma_frame_header(m);
    assert(c.buf =~= one + rest) by {
        assert(c.buf =~= c.buf.take(c.buf_pos as int) + c.buf.skip(c.buf_pos as int));
        assert((one + later) + c.buf.skip(c.buf_pos as int) =~= one + rest);
    }
    lemma_same_header(c.buf, one);
    let head = one.take(12);
    assert(one =~= head + body);
    assert(c.buf =~= head + body + rest);
    crate::protocol::lemma_frame_round_trip(m, head, rest);
    let d = advanced(c);
    assert(d.buf_pos == later.len());
    assert(d.buf.take(d.buf_pos as int) =~= later) by {
        assert forall|i: int| 0 <= i < d.buf_pos implies d.buf[i] == later[i] by {
            assert(d.buf[i] == c.buf[36 + i]);
            assert(c.buf.take(c.buf_pos as int)[36 + i] == (one + later)[36 + i]);
        }
    }
    assert(relayed(fd, c, f, present) =~= seq![RelayView::Frame { target, frame: m, fds: c.fds }]);
}

/// All whole frame packets that the compositor has sent are passed on, one for one, in
/// order and unchanged; the
/// descriptors of the read go with the first of them. What is left is what follows them.
#[verifier::spinoff_prover]
#[verifier::rlimit(50)]
pub proof fn lemma_frames_are_relayed<F>(
    fd: i32,
    target: i32,
    c: ClientState<F>,
    present: Set<i32>,
    ms: Seq<FrameMessage>,
    tail: Seq<u8>,
)
    requires
        c.buf_pos <= c.buf.len(),
        c.role == Some(ClientRole::Compositor),
        present.contains(target),
        c.buf.take(c.buf_pos as int) == frame_stream(ms) + tail,
        is_partial(tail),
    ensures
        ({
            let f = Forwarder { compositor_fd: Some(fd), app_fd: Some(target) };
            let p = processed(fd, c, f, present);
            &&& p.error is None
            &&& p.forwarder == f
            &&& p.relays.len() == ms.len()
            &&& forall|i: int|
                0 <= i < ms.len() ==> #[trigger] p.relays[i] == (RelayView::Frame {
                    target,
                    frame: ms[i],
                    fds: if i == 0 {
                        c.fds
                    } else {
                        seq![]
                    },
                })
            &&& p.client.buf_pos <= p.client.buf.len() == c.buf.len()
            &&& p.client.buf.take(p.client.buf_pos as int) == tail
            &&& p.client.role == c.role
            &&& p.client.fds == (if ms.len() == 0 {
                c.fds
            } else {
                seq![]
            })
        }),
    decreases ms.len(),
{
    let f = Forwarder { compositor_fd: Some(fd), app_fd: Some(target) };
    if ms.len() == 0 {
        assert(frame_stream(ms) + tail =~= tail);
        if tail.len() >= 12 {
            lemma_same_header_of_front(c.buf, c.buf_pos as int);
        }
    } else {
        let m = ms[0];
        let later = ms.drop_first();
        let one = crate::protocol::packet(MessageType::Frame, crate::wire::words_bytes(m.words()));
        lemma_frame_stream_first(ms);
        assert((one + frame_stream(later)) + tail =~= one + (frame_stream(later) + tail));
        lemma_one_frame(fd, target, c, present, m, frame_stream(later) + tail);
        let d = advanced(c);
        lemma_frames_are_relayed(fd, target, d, present, later, tail);
        let p = processed(fd, c, f, present);
        let q = processed(fd, d, f, present);
        assert forall|i: int| 0 <= i < ms.len() implies #[trigger] p.relays[i]
            == (RelayView::Frame {
                    target,
                    frame: ms[i],
                    fds: if i == 0 {
                        c.fds
                    } else {
                        seq![]
                    },
                }) by {
            if i > 0 {
                assert(p.relays[i] == q.relays[i - 1]);
                assert(later[i - 1] == ms[i]);
            }
        }
    }
}

/// However the frame packets of the compositor are cut into reads, all of them are
/// passed on, one for one and in order; what is kept is what has come of the next
/// one.
#[verifier::spinoff_prover]
#[verifier::rlimit(50)]
pub proof fn lemma_frames_arrive_in_pieces<F>(
    fd: i32,
    target: i32,
    c: ClientState<F>,
    present: Set<i32>,
    ms: Seq<FrameMessage>,
    reads: Seq<(Seq<u8>, Seq<F>)>,
)
    requires
        c.wf(),
        c.buf_pos == 0,
        c.role == Some(ClientRole::Compositor),
        present.contains(target),
        bytes_of(reads).len() <= 36 * ms.len(),
        bytes_of(reads) == frame_stream(ms).take(bytes_of(reads).len() as int),
        all_fit_in(fd, c, Forwarder { compositor_fd: Some(fd), app_fd: Some(target) }, present, reads),
    ensures
        ({
            let f = Forwarder { compositor_fd: Some(fd), app_fd: Some(target) };
            let p = served(fd, c, f, present, reads);
            let n = bytes_of(reads).len() as int;
            &&& p.error is None
            &&& p.forwarder == f
            &&& p.relays.len() == n / 36
            &&& forall|i: int|
                0 <= i < n / 36 ==> (#[trigger] p.relays[i] matches RelayView::Frame {
                    target: to,
                    frame: got,
                    ..
                } && to == target && got == ms[i])
            &&& p.client.buf_pos == n % 36
            &&& p.client.buf.take(p.client.buf_pos as int) == frame_stream(ms).subrange(
                36 * (n / 36),
                n,
            )
            &&& p.client.role == c.role
            &&& p.client.buf.len() == c.buf.len()
        }),
    decreases reads.len(),
{
    let f = Forwarder { compositor_fd: Some(fd), app_fd: Some(target) };
    let all = frame_stream(ms);
    let n = bytes_of(reads).len() as int;
    if reads.len() == 0 {
        assert(n == 0);
        assert(c.buf.take(0) =~= all.subrange(0, 0));
    } else {
        let front = reads.drop_last();
        let (data, fds) = reads.last();
        let k = bytes_of(front).len() as int;
        assert(n == k + data.len());
        assert(bytes_of(front) =~= all.take(k)) by {
            assert(bytes_of(reads).take(k) =~= bytes_of(front));
            assert(all.take(n).take(k) =~= all.take(k));
        }
        assert(all_fit_in(fd, c, f, present, front)) by {
            assert forall|j: int| 0 <= j < front.len() implies (#[trigger] fits_in(
                fd,
                c,
                f,
                present,
                front,
                j,
            )) by {
                assert(fits_in(fd, c, f, present, reads, j));
                assert(front.take(j) =~= reads.take(j));
                assert(front[j] == reads[j]);
            }
        }
        lemma_frames_arrive_in_pieces(fd, target, c, present, ms, front);
        let b = served(fd, c, f, present, front);
        assert(fits_in(fd, c, f, present, reads, reads.len() - 1));
        assert(reads.take(reads.len() - 1) =~= front);
        let d = b.client.received(data, fds);
        let i0 = k / 36;
        let i1 = n / 36;
        let part = ms.subrange(i0, i1);
        let tail = all.subrange(36 * i1, n);
        lemma_read_is_added(b.client, data, fds);
        lemma_frame_stream_part(ms, i0, i1);
        lemma_frame_stream_cut(ms, n);
        assert(d.buf.take(d.buf_pos as int) =~= frame_stream(part) + tail) by {
            assert(data =~= all.subrange(k, n)) by {
                assert(bytes_of(reads).skip(k) =~= data);
                assert(all.take(n).skip(k) =~= all.subrange(k, n));
            }
            assert(all.subrange(36 * i0, k) + all.subrange(k, n) =~= all.subrange(36 * i0, n));
            assert(all.subrange(36 * i0, 36 * i1) + tail =~= all.subrange(36 * i0, n));
        }
        lemma_frames_are_relayed(fd, target, d, present, part, tail);
        let q = processed(fd, d, f, present);
        let p = served(fd, c, f, present, reads);
        assert(p.relays == b.relays + q.relays);
        assert forall|i: int| 0 <= i < i1 implies (#[trigger] p.relays[i] matches RelayView::Frame {
            target: to,
            frame: got,
            ..
        } && to == target && got == ms[i]) by {
            if i < i0 {
                assert(p.relays[i] == b.relays[i]);
            } else {
                assert(p.relays[i] == q.relays[i - i0]);
                assert(part[i - i0] == ms[i]);
            }
        }
    }
}

/// What a client has sent and what is not processed yet stays in order: a read is
/// added behind what is kept, and the descriptors are those of the latest read.
pub proof fn lemma_read_is_added<F>(c: ClientState<F>, data: Seq<u8>, fds: Seq<F>)
    requires
        c.wf(),
        c.buf_pos + data.len() <= BUF_SIZE,
    ensures
        ({
            let d = c.received(data, fds);
            &&& d.buf_pos == c.buf_pos + data.len()
            &&& d.buf.take(d.buf_pos as int) == c.buf.take(c.buf_pos as int) + data
            &&& d.fds == fds
            &&& d.role == c.role
            &&& d.buf.len() == c.buf.len()
        }),
{
    let d = c.received(data, fds);
    assert(d.buf.take(d.buf_pos as int) =~= c.buf.take(c.buf_pos as int) + data);
}

/// Of any message, whatever it is, as many bytes are consumed as its header and
/// its length say, and what follows is kept. A message that is neither a frame
/// nor a touch is passed on to none.
pub proof fn lemma_message_is_consumed<F>(
    fd: i32,
    c: ClientState<F>,
    f: Forwarder,
    present: Set<i32>,
)
    requires
        c.buf_pos <= c.buf.len(),
        c.buf_pos >= 12,
        MessageHeader::at(c.buf, 0).valid(),
        c.buf_pos >= 12 + MessageHeader::at(c.buf, 0).length,
    ensures
        ({
            let h = MessageHeader::at(c.buf, 0);
            let d = advanced(c);
            let p = processed(fd, c, f, present);
            let g = registered(fd, c, f);
            let q = processed(fd, d, g, present);
            &&& d.buf_pos == c.buf_pos - 12 - h.length
            &&& d.buf.len() == c.buf.len()
            &&& d.buf.take(d.buf_pos as int) == c.buf.subrange(12 + h.length, c.buf_pos as int)
            &&& d.role is Some && (c.role is Some ==> d.role == c.role)
            &&& d.fds == (if h.msg_type == 0x4C41_4E01 {
                seq![]
            } else {
                c.fds
            })
            &&& p.client == q.client && p.forwarder == q.forwarder && p.error == q.error
            &&& h.msg_type == 0x4C41_4E03 ==> p.relays == q.relays
        }),
{
    let h = MessageHeader::at(c.buf, 0);
    let d = advanced(c);
    assert(d.buf.take(d.buf_pos as int) =~= c.buf.subrange(12 + h.length, c.buf_pos as int));
    let q = processed(fd, d, registered(fd, c, f), present);
    if h.msg_type == 0x4C41_4E03 {
        assert(relayed(fd, c, registered(fd, c, f), present) =~= seq![]);
        assert(Seq::<RelayView<F>>::empty() + q.relays =~= q.relays);
    }
}

/// A client is what its first message makes it, and stays it: one that begins
/// with a touch is the App, any other the compositor.
pub proof fn lemma_first_message_fixes_the_role<F>(fd: i32, c: ClientState<F>, f: Forwarder)
    ensures
        ({
            let touch = c.header().msg_type == 0x4C41_4E02;
            let d = advanced(c);
            let g = registered(fd, c, f);
            &&& c.role is Some ==> d.role == c.role && g == f
            &&& c.role is None && touch ==> d.role == Some(ClientRole::App) && g.app_fd == Some(fd)
                && g.compositor_fd == f.compositor_fd
            &&& c.role is None && !touch ==> d.role == Some(ClientRole::Compositor)
                && g.compositor_fd == Some(fd) && g.app_fd == f.app_fd
        }),
{
}

/// Bytes that are no header are an error at once, and nothing of what follows is
/// passed on.
pub proof fn lemma_bad_header_ends_it<F>(
    fd: i32,
    c: ClientState<F>,
    f: Forwarder,
    present: Set<i32>,
)
    requires
        c.buf_pos >= 12,
        MessageHeader::at(c.buf, 0).magic != 0x4C41_4E00 || !(0x4C41_4E01 <= MessageHeader::at(
            c.buf,
            0,
        ).msg_type <= 0x4C41_4E03),
    ensures
        ({
            let p = processed(fd, c, f, present);
            &&& p.error == Some(ServerError::InvalidHeader)
            &&& p.relays.len() == 0
            &&& p.forwarder == f
        }),
{
}

/// A client that goes takes its role along and nothing else: the others stay, and
/// so does the other end.
pub proof fn lemma_leaving_frees_the_role<F>(s: ServerState<F>, fd: i32, other: i32)
    requires
        s.wf(),
        s.clients.contains_key(fd),
        other != fd,
    ensures
        ({
            let t = s.without(fd);
            &&& !t.clients.contains_key(fd)
            &&& t.clients.contains_key(other) == s.clients.contains_key(other)
            &&& s.clients.contains_key(other) ==> t.clients[other] == s.clients[other]
            &&& match s.clients[fd].role {
                Some(ClientRole::Compositor) => t.forwarder.compositor_fd is None
                    && t.forwarder.app_fd == s.forwarder.app_fd,
                Some(ClientRole::App) => t.forwarder.app_fd is None && t.forwarder.compositor_fd
                    == s.forwarder.compositor_fd,
                None => t.forwarder == s.forwarder,
            }
        }),
{
}

/// A frame or a touch goes to the client that the forwarder names for it, if that
/// one is there, and to nobody else; it is read from behind the header. Nothing
/// else goes anywhere.
pub proof fn lemma_relay_goes_to_the_target<F>(
    fd: i32,
    c: ClientState<F>,
    f: Forwarder,
    present: Set<i32>,
    target: i32,
)
    ensures
        ({
            let t = c.header().msg_type;
            let out = relayed(fd, c, f, present);
            &&& out.len() <= 1
            &&& t == 0x4C41_4E01 && f.frame_target(fd) == Some(target) && present.contains(target)
                ==> out == seq![
                RelayView::Frame { target, frame: FrameMessage::at(c.buf, 12), fds: c.fds },
            ]
            &&& t == 0x4C41_4E02 && f.touch_target(fd) == Some(target) && present.contains(target)
                ==> out == seq![
                RelayView::<F>::Touch { target, touch: TouchMessage::at(c.buf, 12) },
            ]
            &&& out.len() == 1 ==> (t == 0x4C41_4E01 && f.frame_target(fd) is Some
                && present.contains(f.frame_target(fd)->Some_0)) || (t == 0x4C41_4E02
                && f.touch_target(fd) is Some && present.contains(f.touch_target(fd)->Some_0))
        }),
{
}

/// A client that has just connected has said nothing and is nothing yet.
pub proof fn lemma_fresh_client_is_empty<F>()
    ensures
        ClientState::<F>::fresh().role is None,
        ClientState::<F>::fresh().buf_pos == 0,
        ClientState::<F>::fresh().fds.len() == 0,
        ClientState::<F>::fresh().wf(),
{
}

/// What is passed on is listed one for one, in order.
pub proof fn lemma_relays_are_listed<F>(relays: Seq<Relay<F>>, i: int)
    requires
        0 <= i < relays.len(),
    ensures
        relay_views(relays).len() == relays.len(),
        relays[i] matches Relay::Frame { target, frame, fds } ==> relay_views(relays)[i] == (
        RelayView::Frame { target, frame, fds: fds@ }),
        relays[i] matches Relay::Touch { target, touch } ==> relay_views(relays)[i] == (RelayView::<
            F,
        >::Touch { target, touch }),
{
}

} // verus!
