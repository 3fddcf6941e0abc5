use wl_android::proto::{
    ConfigMessage, FrameMessage, KeyMessage, Message, ProtoError, ReleaseMessage, TouchMessage,
    PROTOCOL_VERSION, TOUCH_PHASE_DOWN,
};
use wl_android::session;
use wl_android::session::{dispatch_frame, safe_mmap_len, LoopStep};
use wl_android::transport::{
    frame_body, msg_fd_count, take_message, AppSession, PendingReader, ReadOutcome, RecvError,
    Transport,
};

type Fd = u32;

/// A socket: what was written and not read.
struct Wire {
    bytes: Vec<u8>,
    fds: Vec<Fd>,
}

impl Wire {
    fn new() -> Self {
        Wire { bytes: vec![], fds: vec![] }
    }

    fn send(&mut self, msg: Message<Fd>) {
        let out = Transport::send(&msg);
        self.bytes.extend_from_slice(&out.bytes);
        if out.with_fds {
            if let Message::Frame(_, fds) = msg {
                self.fds.extend(fds);
            }
        }
    }

    fn read(&mut self) -> ReadOutcome<Fd> {
        if self.bytes.is_empty() {
            return ReadOutcome::WouldBlock;
        }
        ReadOutcome::Data(std::mem::take(&mut self.bytes), std::mem::take(&mut self.fds))
    }
}

fn touch() -> Message<Fd> {
    Message::Touch(TouchMessage::new(1, 10.0f32.to_bits(), 20.0f32.to_bits(), TOUCH_PHASE_DOWN, 5))
}

fn conf() -> Message<Fd> {
    Message::Config(ConfigMessage::new(800, 600, 60000, 96, 0, 0))
}

fn key() -> Message<Fd> {
    Message::Key(KeyMessage::new(10, 1, 0))
}

#[test]
fn send_recv_config_roundtrip() {
    let mut wire = Wire::new();
    let mut reader: Transport<Fd> = Transport::new();
    wire.send(conf());
    let received = reader.recv(|| wire.read()).unwrap().unwrap();
    assert!(matches!(received, Message::Config(_)));
    assert_eq!(received, conf());
}

#[test]
fn recv_consumes_only_one_message_keeps_rest() {
    let mut wire = Wire::new();
    let mut server: Transport<Fd> = Transport::new();

    wire.send(touch());
    wire.send(conf());

    assert_eq!(server.recv(|| wire.read()).unwrap().unwrap(), touch());
    assert_eq!(server.recv(|| wire.read()).unwrap().unwrap(), conf());
    assert!(server.recv(|| wire.read()).unwrap().is_none());
}

#[test]
fn pending_served_without_recvmsg() {
    let mut wire = Wire::new();
    let mut server: Transport<Fd> = Transport::new();

    wire.send(touch());
    wire.send(conf());
    wire.send(key());

    assert_eq!(server.recv(|| wire.read()).unwrap().unwrap(), touch());
    let second = server.recv(|| panic!("no read")).unwrap().expect("pending Config");
    assert_eq!(second, conf());
    let third = server.recv(|| panic!("no read")).unwrap().expect("pending Key");
    assert_eq!(third, key());
}

#[test]
fn messages_arrive_however_the_stream_is_cut() {
    let mut wire = Wire::new();
    wire.send(touch());
    wire.send(Message::Frame(FrameMessage::new(4, 2), vec![77]));
    wire.send(key());
    let mut server: Transport<Fd> = Transport::new();
    let mut got = vec![];
    for (i, b) in wire.bytes.iter().enumerate() {
        let fds = if i == 40 { wire.fds.clone() } else { vec![] };
        if let Some(m) = server.recv(|| ReadOutcome::Data(vec![*b], fds)).unwrap() {
            got.push(m);
        }
    }
    assert_eq!(got.len(), 3);
    assert_eq!(got[0], touch());
    match &got[1] {
        Message::Frame(m, fds) => {
            assert_eq!((m.width, m.height), (4, 2));
            assert_eq!(*fds, vec![77]);
        }
        _ => panic!(),
    }
    assert_eq!(got[2], key());
}

#[test]
fn a_closed_peer_is_found_behind_the_last_message() {
    let mut wire = Wire::new();
    wire.send(touch());
    let frame_at = wire.bytes.len();
    wire.send(Message::Frame(FrameMessage::new(4, 2), vec![77]));
    wire.send(key());
    for size in 1..=wire.bytes.len() {
        let mut server: Transport<Fd> = Transport::new();
        let mut at = 0;
        let mut blocked = false;
        let mut got = vec![];
        let mut ends = 0;
        while ends < 2 {
            let received = server.recv(|| {
                blocked = !blocked;
                if blocked && at < wire.bytes.len() {
                    return ReadOutcome::WouldBlock;
                }
                let end = wire.bytes.len().min(at + size);
                let fds = if (at..end).contains(&frame_at) { wire.fds.clone() } else { vec![] };
                let data = wire.bytes[at..end].to_vec();
                at = end;
                ReadOutcome::Data(data, fds)
            });
            match received {
                Ok(Some(m)) => {
                    assert_eq!(ends, 0);
                    got.push(m);
                }
                Ok(None) => assert!(got.len() < 3),
                Err(e) => {
                    assert_eq!(e, RecvError::PeerClosed);
                    assert_eq!(got.len(), 3);
                    ends += 1;
                }
            }
        }
        assert_eq!(got[0], touch());
        assert!(matches!(&got[1], Message::Frame(m, fds) if m.width == 4 && *fds == vec![77]));
        assert_eq!(got[2], key());
    }
}

#[test]
fn sessions_end() {
    let mut t: Transport<Fd> = Transport::new();
    assert!(matches!(t.recv(|| ReadOutcome::Data(vec![], vec![])), Err(RecvError::PeerClosed)));
    assert!(matches!(t.recv(|| ReadOutcome::Failed(104)), Err(RecvError::Os(104))));
    let mut t: Transport<Fd> = Transport::new();
    assert!(matches!(
        t.recv(|| ReadOutcome::Data(vec![1, 0, 16, 0], vec![])),
        Err(RecvError::UnreasonableLength { len: 1048577 })
    ));
    let mut t: Transport<Fd> = Transport::new();
    let bad = frame_body(&[9, 9, 9, 9]);
    assert!(matches!(
        t.recv(|| ReadOutcome::Data(bad, vec![])),
        Err(RecvError::Invalid(ProtoError::BadMagic { got: 0x09090909 }))
    ));
}

#[test]
fn only_a_gone_peer_ends_a_session() {
    for errno in [32, 104, 107] {
        assert!(Transport::<Fd>::is_dead_peer(errno));
    }
    for errno in [4, 11, 105] {
        assert!(!Transport::<Fd>::is_dead_peer(errno));
    }
}

#[test]
fn send_frame_carries_pixel_fd_and_dimensions() {
    let mut wire = Wire::new();
    let mut client: Transport<Fd> = Transport::new();
    wire.send(AppSession::send_frame(800, 600, 31));
    match client.recv(|| wire.read()).unwrap().unwrap() {
        Message::Frame(fm, fds) => {
            assert!(fm.carries_fds(), "frame must carry the pixel fd");
            assert_eq!((fm.width, fm.height), (800, 600));
            assert_eq!(fds.len(), 1);
            assert_eq!(fds[0], 31);
        }
        _ => panic!("expected Frame"),
    }
}

#[test]
fn release_roundtrip() {
    let mut wire = Wire::new();
    let mut session: AppSession<Fd> = AppSession::new(Transport::new());
    wire.bytes = session::AppSession::send_release();
    let got = session.recv_message(|| wire.read()).unwrap();
    assert!(matches!(got, Some(Message::Release(_))), "server must receive the Release");
    assert_eq!(got.unwrap(), Message::Release(ReleaseMessage::new()));
}

#[test]
fn config_update_roundtrip() {
    let mut wire = Wire::new();
    let mut client: Transport<Fd> = Transport::new();
    wire.send(AppSession::send_config_update(800, 600, 60000, 96, 0));
    match client.recv(|| wire.read()).unwrap().unwrap() {
        Message::ConfigUpdate(c) => {
            assert!(c.is_config_update());
            assert_eq!((c.width, c.height), (800, 600));
            assert_eq!(c.protocol_version, PROTOCOL_VERSION);
        }
        _ => panic!("expected ConfigUpdate"),
    }
}

#[test]
fn config_version_check_uses_protocol_version() {
    let conf = ConfigMessage::new(800, 600, 60000, 96, 0, 0);
    assert_eq!(conf.protocol_version, PROTOCOL_VERSION);
    assert_eq!(PROTOCOL_VERSION, 3);
}

#[test]
fn the_app_reads_what_the_server_sends() {
    let mut wire = Wire::new();
    wire.send(AppSession::send_frame(8, 8, 1));
    wire.send(AppSession::send_frame(9, 9, 2));
    let mut reader: PendingReader<Fd> = PendingReader::new();
    assert!(reader.next_message().is_none());
    assert_eq!(reader.fill(wire.bytes, wire.fds), Ok(()));
    let (body, fds) = reader.next_message().unwrap();
    assert_eq!((body.len(), fds), (16, vec![1]));
    assert_eq!(msg_fd_count(&body), 1);
    let (body, fds) = reader.next_message().unwrap();
    assert_eq!((body[4], fds), (9, vec![2]));
    assert!(reader.next_message().is_none());
    assert_eq!(reader.fill(vec![], vec![]), Err(RecvError::PeerClosed));
}

#[test]
fn a_message_is_taken_whole_or_not_at_all() {
    let mut bytes = frame_body(&[7, 8]);
    assert_eq!(bytes, vec![2, 0, 0, 0, 7, 8]);
    let mut fds: Vec<Fd> = vec![5];
    bytes.push(1);
    assert_eq!(take_message(&mut bytes, &mut fds), Some((vec![7, 8], vec![])));
    assert_eq!((bytes.clone(), fds.clone()), (vec![1], vec![5]));
    assert_eq!(take_message(&mut bytes, &mut fds), None);
    assert_eq!(bytes, vec![1]);
}

#[test]
fn fstat_guard_prevents_oversized_mmap() {
    let safe = safe_mmap_len(Some(64), 64 * 4);
    assert_eq!(safe, 64, "must clamp to fstat size, not requested size");
}

#[test]
fn fstat_guard_fd_larger_than_requested() {
    assert_eq!(safe_mmap_len(Some(4096), 256), 256);
}

#[test]
fn fstat_guard_failure_returns_zero() {
    assert_eq!(safe_mmap_len(None, 100), 0);
}

#[test]
fn a_frame_shows_its_first_descriptor() {
    assert_eq!(dispatch_frame(2, 2, vec![5u32, 6], |fd| Some(*fd as u64)), Some(5));
    assert_eq!(dispatch_frame(2, 2, vec![5u32], |_| Some(0)), None);
    assert_eq!(dispatch_frame(2, 2, vec![5u32], |_| None), None);
    assert_eq!(dispatch_frame(0, 2, vec![5u32], |_| Some(9)), None);
    assert_eq!(dispatch_frame(2, 2, vec![], |_: &u32| Some(9)), None);
}

#[test]
fn the_app_acts_on_messages() {
    let frame = Message::Frame(FrameMessage::new(3, 4), vec![8u32]);
    assert!(matches!(
        session::AppSession::run_loop(Ok(frame)),
        LoopStep::Show { width: 3, height: 4, fds } if fds == vec![8]
    ));
    let c = ConfigMessage::new(1, 2, 3, 4, 0, 0).as_config_update();
    assert!(matches!(
        session::AppSession::run_loop(Ok(Message::<Fd>::ConfigUpdate(c))),
        LoopStep::Configure(got) if got == c
    ));
    assert!(matches!(
        session::AppSession::run_loop(Ok(key())),
        LoopStep::Unexpected(Message::Key(_))
    ));
    let e = ProtoError::BadMagic { got: 1 };
    assert!(matches!(
        session::AppSession::run_loop::<Fd>(Err(e)),
        LoopStep::Fail(ProtoError::BadMagic { got: 1 })
    ));
}

#[test]
fn the_app_sends_its_settings() {
    let mut server: Transport<Fd> = Transport::new();
    let bytes = session::AppSession::send_config(800, 600, 60000, 96, 2);
    assert_eq!(bytes.len(), 36);
    let got = server.recv(|| ReadOutcome::Data(bytes, vec![])).unwrap().unwrap();
    assert_eq!(got, Message::Config(ConfigMessage::new(800, 600, 60000, 96, 0, 2)));
    let bytes = session::AppSession::send_message(&touch());
    let got = server.recv(|| ReadOutcome::Data(bytes, vec![])).unwrap().unwrap();
    assert_eq!(got, touch());
}
