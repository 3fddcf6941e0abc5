use wl_android::dmabuf::{
    buffer_metadata, extract_dmabuf_fds, plane_count, plane_fd, wlr_dmabuf_attributes, BufferMeta,
    DmabufError, ExtractError, LandBackend, SubmitError,
};
use wl_android::forwarder::Forwarder;
use wl_android::frame_intake::{BadHeader, FrameIntake};
use wl_android::protocol::{
    frame_packet, touch_packet, AckMessage, FrameMessage, GestureType, MessageHeader, MessageType,
    TouchMessage,
};
use wl_android::socket_server::{
    ClientRead, Relay, ServerError, SocketServer, BUF_SIZE,
};
use wl_android::types::{default_socket_path, DrmFormat};

fn data(bytes: Vec<u8>, fds: Vec<u32>) -> ClientRead<u32> {
    ClientRead::Data(bytes, fds)
}

#[test]
fn header_validate_ok() {
    let h = MessageHeader::new(MessageType::Frame, 0);
    assert!(h.validate());
}

#[test]
fn header_validate_bad_magic() {
    let h =
        MessageHeader { magic: 0xDEADBEEF, msg_type: MessageType::Frame.as_u32(), length: 0 };
    assert!(!h.validate());
}

#[test]
fn header_validate_bad_type() {
    let good = MessageHeader::new(MessageType::Ack, 8);
    assert!(good.validate());
    assert!(!MessageHeader { msg_type: 0x4C414E04, ..good }.validate());
}

#[test]
fn frame_message_size() {
    assert_eq!(FrameMessage::serialized_size(), 24);
}

#[test]
fn touch_message_size() {
    assert_eq!(TouchMessage::serialized_size(), 33);
}

#[test]
fn ack_message_size() {
    assert_eq!(AckMessage::serialized_size(), 8);
    assert_eq!(AckMessage::new(5).serial, 5);
}

#[test]
fn header_size() {
    assert_eq!(MessageHeader::serialized_size(), 12);
}

#[test]
fn enum_values() {
    assert_eq!(MessageType::Frame.as_u32(), 0x4C414E01);
    assert_eq!(MessageType::Touch.as_u32(), 0x4C414E02);
    assert_eq!(MessageType::Ack.as_u32(), 0x4C414E03);
}

#[test]
fn message_types_are_read_back() {
    for t in [MessageType::Frame, MessageType::Touch, MessageType::Ack] {
        assert_eq!(MessageType::from_u32(t.as_u32()), Some(t));
    }
    assert_eq!(MessageType::from_u32(0), None);
}

#[test]
fn gestures_are_numbered() {
    assert_eq!(GestureType::TouchDown.as_u32(), 0);
    assert_eq!(GestureType::TouchMove.as_u32(), 1);
    assert_eq!(GestureType::TouchUp.as_u32(), 2);
    assert_eq!(GestureType::Pinch.as_u32(), 3);
    assert_eq!(GestureType::PinchEnd.as_u32(), 4);
    assert_eq!(GestureType::Scroll.as_u32(), 5);
    assert_eq!(GestureType::ScrollEnd.as_u32(), 6);
}

#[test]
fn frame_message_fields() {
    let m = FrameMessage::new(1920, 1080, 0x34325258, 7680, 42);
    assert_eq!(m.width, 1920);
    assert_eq!(m.height, 1080);
    assert_eq!(m.format, 0x34325258);
    assert_eq!(m.stride, 7680);
    assert_eq!(m.serial, 42);
}

#[test]
fn headers_and_frames_are_read_back() {
    let h = MessageHeader::new(MessageType::Touch, 33);
    assert_eq!(h.to_bytes(), vec![0, 0x4E, 0x41, 0x4C, 2, 0x4E, 0x41, 0x4C, 33, 0, 0, 0]);
    assert_eq!(MessageHeader::read(&h.to_bytes()), h);

    let m = FrameMessage::new(1, 2, 3, 4, 0x0102030405060708);
    assert_eq!(
        m.to_bytes(),
        vec![1, 0, 0, 0, 2, 0, 0, 0, 3, 0, 0, 0, 4, 0, 0, 0, 8, 7, 6, 5, 4, 3, 2, 1]
    );
    assert_eq!(FrameMessage::read(&frame_packet(&m), 12), m);
}

#[test]
fn touches_are_read_back() {
    let one = 1.0f32.to_bits();
    let t = TouchMessage::new_touch(
        9,
        -1,
        GestureType::TouchMove,
        0.5f32.to_bits(),
        2.0f32.to_bits(),
        true,
    );
    assert_eq!((t.dx, t.dy, t.scale, t.pressed), (0, 0, one, 1));
    let packet = touch_packet(&t);
    assert_eq!(packet.len(), 45);
    assert_eq!(packet[44], 1);
    assert_eq!(TouchMessage::read(&packet, 12), t);

    let s = TouchMessage::new_scroll(1, one, 0);
    assert_eq!((s.touch_id, s.gesture, s.dx, s.dy, s.scale, s.pressed), (0, 5, one, 0, one, 1));
    let p = TouchMessage::new_pinch(2, 0.25f32.to_bits());
    assert_eq!((p.touch_id, p.gesture, p.scale, p.pressed), (0, 3, 0.25f32.to_bits(), 1));
}

#[test]
fn drm_format_roundtrip() {
    for code in [0x34325258, 0x34325241, 0x34324258, 0x34324241] {
        let f = DrmFormat::from_fourcc(code).unwrap();
        assert_eq!(f.as_u32(), code);
    }
}

#[test]
fn invalid_fourcc_returns_none() {
    assert!(DrmFormat::from_fourcc(0x12345678).is_none());
}

#[test]
fn formats_have_a_name_and_a_size() {
    assert_eq!(DrmFormat::Argb8888.to_text(), "ARGB8888");
    assert_eq!(DrmFormat::Xbgr8888.to_text(), "XBGR8888");
    assert_eq!(DrmFormat::Xrgb8888.bpp(), 4);
}

#[test]
fn default_socket_from_env() {
    assert_eq!(default_socket_path(Some("/tmp/test.sock".to_string()), false), "/tmp/test.sock");
}

#[test]
fn default_socket_fallback() {
    assert!(default_socket_path(None, true).ends_with("land.sock"));
    assert!(default_socket_path(None, false).ends_with("land.sock"));
    assert_eq!(default_socket_path(None, true), "/dev/socket/land.sock");
    assert_eq!(default_socket_path(None, false), "/run/land.sock");
}

fn attribs(n_planes: u32, fd: [i32; 4]) -> wlr_dmabuf_attributes {
    wlr_dmabuf_attributes {
        width: 640,
        height: -1,
        format: 0x34325258,
        n_planes,
        fd,
        offset: [0; 4],
        stride: [2560, 1, 2, 3],
        modifier: 0,
    }
}

#[test]
fn attribs_struct_size() {
    assert_eq!(std::mem::size_of::<wlr_dmabuf_attributes>(), 72);
}

#[test]
fn planes_are_duplicated_in_order() {
    let a = attribs(3, [10, 11, 12, -1]);
    assert_eq!(plane_count(&a), Ok(3));
    assert_eq!(plane_fd(&a, 2), Ok(12));
    let dup = |fd: i32| -> Result<i32, ()> { Ok(fd + 100) };
    assert_eq!(extract_dmabuf_fds(&a, dup).unwrap(), vec![110, 111, 112]);
}

#[test]
fn bad_planes_are_refused() {
    let dup = |fd: i32| -> Result<i32, &'static str> {
        if fd == 11 {
            Err("dup")
        } else {
            Ok(fd)
        }
    };
    for n in [0, 5] {
        assert_eq!(plane_count(&attribs(n, [1; 4])), Err(DmabufError::InvalidPlaneCount));
        assert!(matches!(
            extract_dmabuf_fds(&attribs(n, [1; 4]), dup),
            Err(ExtractError::Attributes(DmabufError::InvalidPlaneCount))
        ));
    }
    assert_eq!(plane_fd(&attribs(2, [1, -1, 1, 1]), 1), Err(DmabufError::InvalidFd { plane: 1 }));
    assert!(matches!(
        extract_dmabuf_fds(&attribs(2, [1, -1, 1, 1]), dup),
        Err(ExtractError::Attributes(DmabufError::InvalidFd { plane: 1 }))
    ));
    assert!(matches!(
        extract_dmabuf_fds(&attribs(3, [1, 11, -1, 1]), dup),
        Err(ExtractError::Dup("dup"))
    ));
}

#[test]
fn metadata_of_a_buffer() {
    let meta = buffer_metadata(&attribs(1, [1; 4]));
    assert_eq!(
        meta,
        BufferMeta {
            width: 640,
            height: u32::MAX,
            format: 0x34325258,
            stride: 2560,
            num_planes: 1,
        }
    );
    assert_eq!(buffer_metadata(&attribs(0, [1; 4])).stride, 0);
}

#[test]
fn submitted_buffers_are_numbered() {
    assert!(LandBackend::wrap(true).is_none());
    let mut backend = LandBackend::wrap(false).unwrap();
    let dup = |fd: i32| -> Result<i32, ()> { Ok(fd + 100) };
    assert!(matches!(backend.on_buffer_submit(None, dup), Err(SubmitError::NotDmabuf)));
    assert!(matches!(
        backend.on_buffer_submit(Some(attribs(9, [1; 4])), dup),
        Err(SubmitError::Extract(ExtractError::Attributes(DmabufError::InvalidPlaneCount)))
    ));
    let (frame, fds) = backend.on_buffer_submit(Some(attribs(2, [1, 2, 0, 0])), dup).unwrap();
    assert_eq!(frame, FrameMessage::new(640, u32::MAX, 0x34325258, 2560, 1));
    assert_eq!(fds, vec![101, 102]);
    let (frame, _) = backend.on_buffer_submit(Some(attribs(1, [1; 4])), dup).unwrap();
    assert_eq!(frame.serial, 2);
}

#[test]
fn forward_registration() {
    let mut f = Forwarder::new();
    assert!(!f.has_pair());

    f.register_compositor(3);
    f.register_app(4);
    assert!(f.has_pair());
    assert_eq!(f.target_for_frame(3), Some(4));
    assert_eq!(f.target_for_touch(4), Some(3));
}

#[test]
fn forward_no_target() {
    let f = Forwarder::new();
    assert_eq!(f.target_for_frame(0), None);
    assert_eq!(f.target_for_touch(0), None);
}

#[test]
fn unregistering_breaks_the_pair() {
    let mut f = Forwarder::new();
    f.register_compositor(3);
    f.register_app(4);
    f.unregister_app();
    assert!(!f.has_pair());
    assert_eq!(f.target_for_frame(3), None);
    f.register_app(4);
    f.unregister_compositor();
    assert_eq!(f.target_for_touch(4), None);
}

fn paired() -> SocketServer<u32> {
    let mut s = SocketServer::new();
    s.accept_client(3);
    s.accept_client(4);
    let touch = TouchMessage::new_scroll(0, 0, 0);
    let h = s.handle_client(4, data(touch_packet(&touch), vec![]));
    assert!(h.error.is_none());
    let frame = FrameMessage::new(1, 1, 1, 4, 0);
    s.handle_client(3, data(frame_packet(&frame), vec![]));
    s
}

#[test]
fn frames_and_touches_are_relayed() {
    let mut s = paired();
    let frame = FrameMessage::new(8, 6, 0x34325258, 32, 7);
    let h = s.handle_client(3, data(frame_packet(&frame), vec![70, 71]));
    assert!(!h.removed && h.error.is_none());
    assert_eq!(h.relays.len(), 1);
    match &h.relays[0] {
        Relay::Frame { target, frame: f, fds } => {
            assert_eq!(*target, 4);
            assert_eq!(*f, frame);
            assert_eq!(*fds, vec![70, 71]);
        }
        Relay::Touch { .. } => panic!(),
    }

    let touch = TouchMessage::new_touch(5, 2, GestureType::TouchDown, 1, 2, true);
    let h = s.handle_client(4, data(touch_packet(&touch), vec![]));
    match &h.relays[0] {
        Relay::Touch { target, touch: t } => {
            assert_eq!(*target, 3);
            assert_eq!(*t, touch);
        }
        Relay::Frame { .. } => panic!(),
    }
}

#[test]
fn a_split_message_waits_for_its_end() {
    let mut s = paired();
    let frame = FrameMessage::new(8, 6, 0x34325258, 32, 7);
    let packet = frame_packet(&frame);
    let before = s.room(3).unwrap();
    assert_eq!(before, BUF_SIZE);
    let h = s.handle_client(3, data(packet[..20].to_vec(), vec![]));
    assert!(h.relays.is_empty() && h.error.is_none());
    assert_eq!(s.room(3), Some(BUF_SIZE - 20));
    let mut rest = packet[20..].to_vec();
    rest.extend_from_slice(&frame_packet(&FrameMessage::new(1, 2, 3, 4, 8)));
    let h = s.handle_client(3, data(rest, vec![1]));
    assert_eq!(h.relays.len(), 2);
    match (&h.relays[0], &h.relays[1]) {
        (Relay::Frame { frame: a, fds: fa, .. }, Relay::Frame { frame: b, fds: fb, .. }) => {
            assert_eq!(*a, frame);
            assert_eq!(*fa, vec![1]);
            assert_eq!(b.serial, 8);
            assert!(fb.is_empty());
        }
        _ => panic!(),
    }
    assert_eq!(s.room(3), Some(BUF_SIZE));
}

#[test]
fn clients_end() {
    let mut s = paired();
    assert_eq!(s.room(9), None);
    let h = s.handle_client(9, ClientRead::Reset);
    assert!(!h.removed && h.error.is_none());
    let h = s.handle_client(3, ClientRead::WouldBlock);
    assert!(!h.removed && h.error.is_none());
    let h = s.handle_client(3, ClientRead::Failed(5));
    assert_eq!(h.error, Some(ServerError::Os(5)));
    let h = s.handle_client(4, data(vec![], vec![]));
    assert!(h.removed);
    // Without the App, a frame goes nowhere.
    let frame = FrameMessage::new(8, 6, 0x34325258, 32, 7);
    let h = s.handle_client(3, data(frame_packet(&frame), vec![1]));
    assert!(h.relays.is_empty() && h.error.is_none());
    let h = s.handle_client(3, ClientRead::Reset);
    assert!(h.removed);
    assert_eq!(s.room(3), None);
}

#[test]
fn a_client_that_breaks_the_protocol_ends_the_daemon() {
    let mut s = paired();
    let h = s.handle_client(3, data(vec![0; 12], vec![]));
    assert_eq!(h.error, Some(ServerError::InvalidHeader));

    let mut s = paired();
    let h = s.handle_client(3, data(vec![0; BUF_SIZE], vec![]));
    assert_eq!(h.error, Some(ServerError::BufferOverflow));
    assert_eq!(s.room(3), Some(BUF_SIZE));
}

#[test]
fn the_display_keeps_the_latest_frame() {
    let mut intake: FrameIntake<u32> = FrameIntake::new();
    let a = FrameMessage::new(8, 6, 1, 32, 1);
    let b = FrameMessage::new(8, 6, 1, 32, 2);
    assert_eq!(intake.handle_compositor(&frame_packet(&a), vec![5]), Ok(()));
    let packet = frame_packet(&b);
    assert_eq!(intake.handle_compositor(&packet[..13], vec![]), Ok(()));
    assert_eq!(intake.room(), BUF_SIZE - 13);
    assert_eq!(intake.handle_compositor(&packet[13..], vec![6, 7]), Ok(()));
    let (frame, fd) = intake.take_latest().unwrap();
    assert_eq!((frame, fd), (b, 6));
    assert!(intake.take_latest().is_none());
    assert_eq!(intake.handle_compositor(&[1; 12], vec![]), Err(BadHeader));
}

#[test]
fn a_frame_without_descriptor_is_not_shown() {
    let mut intake: FrameIntake<u32> = FrameIntake::new();
    let a = FrameMessage::new(8, 6, 1, 32, 1);
    assert_eq!(intake.handle_compositor(&frame_packet(&a), vec![]), Ok(()));
    assert!(intake.take_latest().is_none());
}
