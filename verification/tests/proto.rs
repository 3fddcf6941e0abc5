use std::mem::size_of;
use wl_android::proto::{
    decode, encode, fd_count, fourcc, ConfigMessage, FrameMessage, KeyMessage, Message, ProtoError,
    ReleaseMessage, TouchMessage, DRM_FORMAT_ABGR8888, DRM_FORMAT_ARGB8888, DRM_FORMAT_XBGR8888,
    DRM_FORMAT_XRGB8888, MAGIC_CONF, MAGIC_CONFU, MAGIC_KEYM, MAGIC_LAND, MAGIC_RLSE, MAGIC_TOUC,
    TOUCH_PHASE_CANCEL, TOUCH_PHASE_DOWN, TOUCH_PHASE_FRAME, TOUCH_PHASE_MOVE, TOUCH_PHASE_UP,
};

type Fd = u32;

fn decode_none(buf: &[u8]) -> Result<Message<Fd>, ProtoError> {
    decode(buf, vec![])
}

fn roundtrip(msg: Message<Fd>) -> Message<Fd> {
    let bytes = encode(&msg);
    let fds: Vec<Fd> = match &msg {
        Message::Frame(m, fds) if m.carries_fds() => fds.clone(),
        _ => vec![],
    };
    decode(&bytes, fds).unwrap()
}

#[test]
fn config_size_is_32() {
    assert_eq!(size_of::<ConfigMessage>(), 32);
    assert_eq!(wl_android::proto::CONFIG_SIZE, 32);
}

#[test]
fn frame_size_is_16() {
    assert_eq!(size_of::<FrameMessage>(), 16);
    assert_eq!(wl_android::proto::FRAME_SIZE, 16);
}

#[test]
fn release_size_is_8() {
    assert_eq!(size_of::<ReleaseMessage>(), 8);
    assert_eq!(wl_android::proto::RELEASE_SIZE, 8);
}

#[test]
fn touch_size_is_24() {
    assert_eq!(size_of::<TouchMessage>(), 24);
    assert_eq!(wl_android::proto::TOUCH_SIZE, 24);
}

#[test]
fn key_size_is_16() {
    assert_eq!(size_of::<KeyMessage>(), 16);
    assert_eq!(wl_android::proto::KEY_SIZE, 16);
}

#[test]
fn magic_conf_is_ascii_conf() {
    assert_eq!(MAGIC_CONF, u32::from_le_bytes(*b"CONF"));
}

#[test]
fn magic_confu_is_ascii_conu() {
    assert_eq!(MAGIC_CONFU, u32::from_le_bytes(*b"CONU"));
}

#[test]
fn magic_land_is_ascii_land() {
    assert_eq!(MAGIC_LAND, u32::from_le_bytes(*b"LAND"));
}

#[test]
fn magic_rlse_is_ascii_rlse() {
    assert_eq!(MAGIC_RLSE, u32::from_le_bytes(*b"RLSE"));
}

#[test]
fn magic_touc_is_ascii_touc() {
    assert_eq!(MAGIC_TOUC, u32::from_le_bytes(*b"TOUC"));
}

#[test]
fn magic_keym_is_ascii_keym() {
    assert_eq!(MAGIC_KEYM, u32::from_le_bytes(*b"KEYM"));
}

#[test]
fn golden_config() {
    let msg = ConfigMessage::new(3392, 2400, 144000, 289, 0, 0);
    let bytes = encode(&Message::<Fd>::Config(msg));
    assert_eq!(bytes.len(), 32);
    assert_eq!(bytes[0..4], *b"CONF");
    assert_eq!(
        bytes,
        vec![
            67, 79, 78, 70, 3, 0, 0, 0, 64, 13, 0, 0, 96, 9, 0, 0, 128, 50, 2, 0, 33, 1, 0, 0, 0,
            0, 0, 0, 0, 0, 0, 0
        ]
    );
}

#[test]
fn golden_config_update() {
    let msg = ConfigMessage::new(2400, 3392, 144000, 288, 0, 0).as_config_update();
    assert!(msg.is_config_update(), "as_config_update must flip the magic");
    assert_eq!(msg.magic, MAGIC_CONFU);
    let bytes = encode(&Message::<Fd>::ConfigUpdate(msg));
    assert_eq!(bytes.len(), 32);
    assert_eq!(bytes[0..4], *b"CONU");
    assert_eq!(
        bytes,
        vec![
            67, 79, 78, 85, 3, 0, 0, 0, 96, 9, 0, 0, 64, 13, 0, 0, 128, 50, 2, 0, 32, 1, 0, 0, 0,
            0, 0, 0, 0, 0, 0, 0
        ]
    );
    let plain = ConfigMessage::new(3392, 2400, 144000, 289, 0, 0);
    assert!(!plain.is_config_update());
}

#[test]
fn golden_frame() {
    let msg = FrameMessage::new(3392, 2400);
    assert!(msg.carries_fds());

    let bytes = encode(&Message::<Fd>::Frame(msg, vec![7]));
    assert_eq!(bytes.len(), 16);
    assert_eq!(bytes[0..4], *b"LAND");
    assert_eq!(fd_count(&Message::<Fd>::Frame(msg, vec![])), 1);
    assert_eq!(bytes, vec![76, 65, 78, 68, 64, 13, 0, 0, 96, 9, 0, 0, 1, 0, 0, 0]);
}

#[test]
fn golden_release() {
    let msg = ReleaseMessage::new();
    let bytes = encode(&Message::<Fd>::Release(msg));
    assert_eq!(bytes.len(), 8);
    assert_eq!(bytes[0..4], *b"RLSE");
    assert_eq!(bytes, vec![82, 76, 83, 69, 0, 0, 0, 0]);
}

#[test]
fn golden_touch() {
    let msg = TouchMessage::new(0, 0.5f32.to_bits(), 0.75f32.to_bits(), TOUCH_PHASE_DOWN, 1000);
    let bytes = encode(&Message::<Fd>::Touch(msg));
    assert_eq!(bytes.len(), 24);
    assert_eq!(bytes[0..4], *b"TOUC");
    assert_eq!(
        bytes,
        vec![
            84, 79, 85, 67, 0, 0, 0, 0, 0, 0, 0, 63, 0, 0, 64, 63, 0, 0, 0, 0, 232, 3, 0, 0
        ]
    );
}

#[test]
fn keym_message_golden() {
    let msg = KeyMessage::new(30, 1, 12345);
    let bytes = encode(&Message::<Fd>::Key(msg));
    assert_eq!(bytes.len(), 16);
    assert_eq!(bytes[0..4], *b"KEYM");
    assert_eq!(bytes, vec![75, 69, 89, 77, 30, 0, 0, 0, 1, 0, 0, 0, 57, 48, 0, 0]);
}

#[test]
fn rt_config() {
    for (w, h, refresh, dpi) in
        [(100, 100, 1000, 96), (7999, 7999, 239999, 599), (1920, 1080, 60000, 160)]
    {
        let msg = Message::<Fd>::Config(ConfigMessage::new(w, h, refresh, dpi, 0, 0));
        assert_eq!(
            roundtrip(Message::Config(ConfigMessage::new(w, h, refresh, dpi, 0, 0))),
            msg
        );
    }
}

#[test]
fn rt_config_update() {
    for mode in 0..4 {
        let update = ConfigMessage::new(1080, 1920, 90000, 420, 0, mode).as_config_update();
        assert_eq!(
            roundtrip(Message::ConfigUpdate(update)),
            Message::<Fd>::ConfigUpdate(update)
        );
    }
}

#[test]
fn rt_release() {
    let got = roundtrip(Message::Release(ReleaseMessage::new()));
    assert_eq!(got, Message::Release(ReleaseMessage::new()));
}

#[test]
fn rt_touch() {
    for touch_id in [-10, -1, 0, 9] {
        for phase in 0..5 {
            let m = TouchMessage::new(
                touch_id,
                0.25f32.to_bits(),
                0.999f32.to_bits(),
                phase,
                u32::MAX,
            );
            assert_eq!(roundtrip(Message::Touch(m)), Message::<Fd>::Touch(m));
        }
    }
}

#[test]
fn rt_frame() {
    let msg = FrameMessage::new(640, 480);
    match roundtrip(Message::Frame(msg, vec![42])) {
        Message::Frame(got, fds) => {
            assert_eq!(got.magic, msg.magic);
            assert_eq!(got.width, msg.width);
            assert_eq!(got.height, msg.height);
            assert_eq!(got.flags, msg.flags);
            assert!(got.carries_fds());
            assert_eq!(fds, vec![42]);
        }
        _ => panic!("expected Frame"),
    }
}

#[test]
fn rt_key() {
    for keycode in [0, 30, 255] {
        for state in 0..2 {
            let m = KeyMessage::new(keycode, state, 77);
            assert_eq!(roundtrip(Message::Key(m)), Message::<Fd>::Key(m));
        }
    }
}

#[test]
fn decode_bad_magic() {
    let buf = [0xFF, 0xFF, 0xFF, 0xFF, 0u8, 0, 0, 0, 0, 0, 0, 0, 0, 0, 0, 0];
    let err = decode_none(&buf).unwrap_err();
    assert_eq!(err, ProtoError::BadMagic { got: 0xFFFFFFFF });
}

#[test]
fn decode_bad_length() {
    let buf = [0u8; 3];
    let err = decode_none(&buf).unwrap_err();
    assert_eq!(err, ProtoError::BadLength { expected: 4, got: 3 });
}

#[test]
fn decode_truncated_frame() {
    let mut buf = [0u8; 8];
    buf[0..4].copy_from_slice(b"LAND");
    let err = decode_none(&buf).unwrap_err();
    assert_eq!(err, ProtoError::BadLength { expected: 16, got: 8 });
}

#[test]
fn decode_truncated_keym() {
    let mut buf = [0u8; 8];
    buf[0..4].copy_from_slice(b"KEYM");
    let err = decode_none(&buf).unwrap_err();
    assert_eq!(err, ProtoError::BadLength { expected: 16, got: 8 });
}

#[test]
fn decode_truncated_release() {
    let mut buf = [0u8; 4];
    buf[0..4].copy_from_slice(b"RLSE");
    let err = decode_none(&buf).unwrap_err();
    assert_eq!(err, ProtoError::BadLength { expected: 8, got: 4 });
}

#[test]
fn frame_carries_fds_reports_one() {
    let msg = Message::<Fd>::Frame(FrameMessage::new(1920, 1080), vec![3]);
    assert_eq!(fd_count(&msg), 1);
}

#[test]
fn frame_without_fds_reports_zero() {
    let msg = FrameMessage::new(1920, 1080);
    assert_eq!(
        fd_count(&Message::<Fd>::Frame(msg, vec![])),
        1,
        "frames always carry the pixel fd"
    );
}

#[test]
fn frame_missing_fd_is_fd_mismatch() {
    let bytes = encode(&Message::<Fd>::Frame(FrameMessage::new(1920, 1080), vec![]));
    let err = decode_none(&bytes).unwrap_err();
    assert_eq!(err, ProtoError::FdMismatch { expected: 1, got: 0 });
}

#[test]
fn frame_extra_fd_is_fd_mismatch() {
    let bytes = encode(&Message::<Fd>::Frame(FrameMessage::new(1920, 1080), vec![]));
    let err = decode::<Fd>(&bytes, vec![1, 2]).unwrap_err();
    assert_eq!(err, ProtoError::FdMismatch { expected: 1, got: 2 });
}

#[test]
fn release_carries_no_fds() {
    let bytes = encode(&Message::<Fd>::Release(ReleaseMessage::new()));
    let got = decode_none(&bytes).unwrap();
    assert!(matches!(got, Message::Release(_)));
}

#[test]
fn touch_phases_are_distinct() {
    let phases = [
        TOUCH_PHASE_DOWN,
        TOUCH_PHASE_MOVE,
        TOUCH_PHASE_UP,
        TOUCH_PHASE_CANCEL,
        TOUCH_PHASE_FRAME,
    ];
    for i in 0..phases.len() {
        for j in (i + 1)..phases.len() {
            assert_ne!(phases[i], phases[j]);
        }
    }
}

#[test]
fn insta_snapshots_are_fresh() {
    let first = encode(&Message::<Fd>::Config(ConfigMessage::new(3392, 2400, 144000, 289, 0, 0)));
    let again = encode(&Message::<Fd>::Config(ConfigMessage::new(3392, 2400, 144000, 289, 0, 0)));
    assert_eq!(first, again);
}

#[test]
fn errors_have_a_text() {
    assert_eq!(ProtoError::BadMagic { got: 0xABC }.to_text(), "bad magic: 0x00000ABC");
    assert_eq!(
        ProtoError::BadLength { expected: 16, got: 8 }.to_text(),
        "bad message length: expected 16, got 8"
    );
    assert_eq!(
        ProtoError::FdMismatch { expected: 1, got: 20 }.to_text(),
        "fd count mismatch: expected 1, got 20"
    );
}

#[test]
fn a_not_a_number_equals_nothing() {
    let nan = TouchMessage::new(0, f32::NAN.to_bits(), 0, 0, 0);
    assert!(nan != nan);
    let plus = TouchMessage::new(0, 0.0f32.to_bits(), 0, 0, 0);
    let minus = TouchMessage::new(0, (-0.0f32).to_bits(), 0, 0, 0);
    assert!(plus == minus);
}

#[test]
fn formats_are_their_letters() {
    assert_eq!(fourcc(b"XR24"), DRM_FORMAT_XRGB8888);
    assert_eq!(fourcc(b"AR24"), DRM_FORMAT_ARGB8888);
    assert_eq!(fourcc(b"XB24"), DRM_FORMAT_XBGR8888);
    assert_eq!(fourcc(b"AB24"), DRM_FORMAT_ABGR8888);
}

#[test]
fn bytes_after_a_message_are_ignored_by_decode() {
    let mut bytes = encode(&Message::<Fd>::Release(ReleaseMessage::new()));
    bytes.push(9);
    assert_eq!(decode_none(&bytes).unwrap(), Message::Release(ReleaseMessage::new()));
}
