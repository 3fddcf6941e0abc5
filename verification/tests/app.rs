use wl_android::ahb::{
    bytes_per_pixel, drm_format_for_ahb, slot_message, stride_bytes_from_desc, AhbSlot,
};
use wl_android::app_state::{
    AppState, Connection, DisplayConfig, RecvAction, RecvEvent, Registry, RenderLoop, RenderStep,
    SnapshotPool,
};
use wl_android::jni_bridge::{
    copy_row_bgra, plan_blank, plan_frame, snapshot_frame_into, snapshot_len, FdMmapCache,
    SnapshotError, SurfaceAction, WindowSlot,
};
use wl_android::probe::{
    arr_to_str, check_ext, ok_str, recommend_path, text_len, FramePath,
};
use wl_android::testutil::{FdCountGuard, MockClock};

#[test]
fn rows_with_equal_strides_are_one_block() {
    let src: Vec<u8> = (0..16).collect();
    let mut dst = vec![0u8; 16];
    assert!(!copy_row_bgra(&mut dst, 8, &src, 8, 2, 2));
    assert_eq!(dst, src);
}

#[test]
fn rows_with_different_strides_land_in_place() {
    let src: Vec<u8> = (1..17).collect();
    let mut dst = vec![0u8; 24];
    assert!(!copy_row_bgra(&mut dst, 12, &src, 8, 2, 2));
    let mut expected = vec![0u8; 24];
    expected[..8].copy_from_slice(&src[..8]);
    expected[12..20].copy_from_slice(&src[8..]);
    assert_eq!(dst, expected);
}

#[test]
fn rows_with_gaps_land_in_place_with_equal_strides() {
    let src: Vec<u8> = (1..25).collect();
    let mut dst = vec![0u8; 24];
    assert!(!copy_row_bgra(&mut dst, 12, &src, 12, 2, 2));
    let mut expected = vec![0u8; 24];
    expected[..8].copy_from_slice(&src[..8]);
    expected[12..20].copy_from_slice(&src[12..20]);
    assert_eq!(dst, expected, "the gaps stay as they were");
}

#[test]
fn rows_out_of_reach_are_left_out() {
    let src: Vec<u8> = (1..9).collect();
    let mut dst = vec![0u8; 8];
    assert!(copy_row_bgra(&mut dst, usize::MAX, &src, usize::MAX - 1, 1, 3));
    assert_eq!(dst, [1, 2, 3, 4, 0, 0, 0, 0]);
    assert!(copy_row_bgra(&mut dst, 4, &src, 4, 1, usize::MAX));
    assert_eq!(dst, src[..]);
    assert!(!copy_row_bgra(&mut dst, 0, &[], 0, 0, 5), "no pixels, nothing to cut");
}

#[test]
fn rows_that_do_not_fit_are_cut() {
    let src: Vec<u8> = (1..13).collect();
    let mut dst = vec![0u8; 24];
    assert!(copy_row_bgra(&mut dst, 12, &src, 8, 2, 2), "the source ends inside a row");
    assert_eq!(dst[12..16], src[8..12]);
    assert_eq!(dst[16..], [0; 8]);

    let src: Vec<u8> = (1..17).collect();
    let mut dst = vec![0u8; 14];
    assert!(copy_row_bgra(&mut dst, 12, &src, 8, 2, 2), "the destination ends inside a row");
    assert_eq!(dst[12..], src[8..10]);

    let mut dst = vec![0u8; 4];
    assert!(copy_row_bgra(&mut dst, 8, &src, 8, 2, 2));
    assert_eq!(dst, src[..4]);
}

#[test]
fn windows_are_drawn_where_they_fit() {
    let p = plan_frame(10, 20, 16, 12, 5).unwrap();
    assert_eq!((p.dst_stride_bytes, p.src_stride_bytes), (64, 48));
    assert_eq!((p.copy_w, p.copy_h, p.dst_len), (10, 5, 320));
    assert!(plan_frame(0, 20, 16, 12, 5).is_none());
    assert!(plan_frame(10, 0, 16, 12, 5).is_none());
    assert_eq!(plan_blank(10, 20, 16), Some(1280));
    assert_eq!(plan_blank(0, 20, 16), None);
}

#[test]
fn snapshots_never_read_past_the_descriptor() {
    assert_eq!(snapshot_len(4, 4, Some(1000)), Ok(64));
    assert_eq!(snapshot_len(4, 4, Some(10)), Ok(10));
    assert_eq!(snapshot_len(4, 4, Some(0)), Err(SnapshotError::Empty));
    assert_eq!(snapshot_len(0, 4, Some(9)), Err(SnapshotError::Empty));
    assert_eq!(snapshot_len(4, 4, None), Err(SnapshotError::StatFailed));
    let mut out = vec![9u8; 7];
    snapshot_frame_into(&[1, 2, 3, 4], 3, &mut out);
    assert_eq!(out, vec![1, 2, 3]);
}

#[test]
fn a_buffer_is_mapped_once() {
    let mut cache = FdMmapCache::new();
    assert_eq!(cache.map(1, 2, 100, |_| None), None);
    assert_eq!(cache.map(1, 2, 100, |len| Some(len + 5)), Some((105, 100)));
    assert_eq!(cache.map(1, 2, 300, |_| panic!("mapped already")), Some((105, 100)));
    assert_eq!(cache.map(1, 3, 300, |_| Some(7)), Some((7, 300)));
    assert_eq!(cache.map(2, 2, 1, |_| Some(8)), Some((8, 1)));
}

#[test]
fn the_same_window_is_not_taken_again() {
    let mut slot = WindowSlot::new();
    assert_eq!(slot.current(), None);
    assert_eq!(
        slot.set_surface(5),
        SurfaceAction { release: None, acquire: true, set_format: true }
    );
    assert_eq!(
        slot.set_surface(5),
        SurfaceAction { release: None, acquire: false, set_format: true }
    );
    assert_eq!(
        slot.set_surface(0),
        SurfaceAction { release: None, acquire: false, set_format: false }
    );
    assert_eq!(slot.current(), Some(5));
    assert_eq!(
        slot.set_surface(6),
        SurfaceAction { release: Some(5), acquire: true, set_format: true }
    );
    assert_eq!(
        slot.clear(),
        SurfaceAction { release: Some(6), acquire: false, set_format: false }
    );
    assert_eq!(slot.current(), None);
}

#[test]
fn the_renderer_gets_the_newest_snapshot() {
    let mut pool = SnapshotPool::new("a", "b");
    assert_eq!(pool.take_ready(), None);
    assert!(pool.write_with(1, 1, |b| *b == "a"));
    assert!(pool.write_with(2, 2, |b| *b == "b"));
    assert!(!pool.write_with(3, 3, |_| panic!("both are busy")));
    assert_eq!(pool.take_ready(), Some((1, 2, 2)));
    assert_eq!(*pool.data(1), "b");
    assert_eq!(pool.free_slot(), None);
    assert_eq!(pool.take_ready(), Some((0, 1, 1)));
    pool.done(1);
    assert_eq!(pool.free_slot(), Some(1));
    assert!(!pool.write_with(4, 4, |_| false));
    assert_eq!(pool.take_ready(), None);
    pool.done(0);
    pool.publish(0, 5, 6);
    assert_eq!(pool.take_ready(), Some((0, 5, 6)));
}

#[test]
fn handles_are_never_used_again() {
    let mut r: Registry<&str> = Registry::new();
    assert_eq!(r.first(), None);
    assert_eq!(r.register("x"), 1);
    assert_eq!(r.register("y"), 2);
    assert_eq!(r.find(2), Some(&"y"));
    assert_eq!(r.first(), Some(1));
    r.remove(1);
    r.remove(7);
    assert_eq!(r.find(1), None);
    assert_eq!(r.first(), Some(2));
    assert_eq!(r.register("z"), 3);
}

#[test]
fn a_session_comes_and_goes() {
    let config = |w: u32| DisplayConfig {
        width: w,
        height: 1,
        refresh_millihz: 2,
        dpi: 3,
        frame_mode: 0,
    };
    let mut c = Connection::new();
    assert_eq!(c.state, AppState::Init);
    c.connect_failed();
    assert_eq!(c.state, AppState::Init, "there has been no session");
    assert_eq!(c.on_config(config(1)), None);
    assert_eq!(c.on_config(config(2)), None);
    assert_eq!(c.connected(), Some(config(2)));
    assert_eq!(c.state, AppState::Active);
    assert_eq!(c.on_config(config(3)), Some(config(3)));
    c.frame_arrived();
    assert_eq!(c.state, AppState::Active);
    c.session_ended();
    assert_eq!(c.state, AppState::Disconnected);
    c.connect_failed();
    assert_eq!(c.state, AppState::Disconnected);
    assert_eq!(c.connected(), None);
    assert!(!c.stopped);
    c.stop();
    assert!(c.stopped);
    assert_eq!(
        (AppState::Init.as_i32(), AppState::Active.as_i32(), AppState::Disconnected.as_i32()),
        (0, 2, 4)
    );
}

#[test]
fn the_screen_is_blanked_once_per_disconnection() {
    let mut r = RenderLoop::new();
    assert_eq!(r.step(false, AppState::Active), RenderStep::Wait);
    assert_eq!(r.step(false, AppState::Disconnected), RenderStep::BlankAndWait);
    assert_eq!(r.step(false, AppState::Disconnected), RenderStep::Wait);
    assert_eq!(r.step(true, AppState::Active), RenderStep::Present);
    assert_eq!(r.step(false, AppState::Disconnected), RenderStep::BlankAndWait);
}

#[test]
fn hardware_buffer_formats() {
    assert_eq!(bytes_per_pixel(1), Some(4));
    assert_eq!(bytes_per_pixel(2), Some(4));
    assert_eq!(bytes_per_pixel(3), None);
    assert_eq!(stride_bytes_from_desc(100, 1), Some(400));
    assert_eq!(stride_bytes_from_desc(100, 99), None);
    assert_eq!(drm_format_for_ahb(1), Some(0x34324241));
    assert_eq!(drm_format_for_ahb(2), Some(0x34324258));
    assert_eq!(drm_format_for_ahb(4), None);
}

#[test]
fn hardware_buffer_slots() {
    let slot = AhbSlot::from_ahb(1, 8, 6, 16, 1).unwrap();
    assert_eq!(slot.to_tbuf_message(), slot_message(1, 8, 6, 0x34324241, 64));
    assert!(AhbSlot::from_ahb(1, 8, 6, 16, 77).is_none());
}

#[test]
fn names_end_at_the_first_zero() {
    assert_eq!(text_len(b"abc\0def"), 3);
    assert_eq!(text_len(b"abc"), 3);
    assert_eq!(arr_to_str(b"VK_KHR_swapchain\0garbage"), "VK_KHR_swapchain");
    assert_eq!(arr_to_str(b"\0"), "");
    assert_eq!(arr_to_str(&[b'a', 0xFF, b'b', 0]), "a\u{FFFD}b");
}

#[test]
fn extensions_decide_the_path() {
    let have = vec!["VK_a".to_string(), "VK_b".to_string()];
    assert!(check_ext("VK_b", &have));
    assert!(!check_ext("VK", &have));
    assert_eq!(ok_str(true), "✅ OK");
    assert_eq!(ok_str(false), "❌ MISSING");
    assert_eq!(recommend_path(true, true, false), FramePath::Direct);
    assert_eq!(recommend_path(true, false, true), FramePath::Blit);
    assert_eq!(recommend_path(false, true, false), FramePath::Unavailable);
}

#[test]
fn a_mocked_clock_stands_still() {
    let mut c = MockClock::new();
    assert_eq!(c.now(77), 77);
    assert_eq!(c.tick_interval(), 6_944_444);
    c.set_now(100);
    assert_eq!(c.now(77), 100);
    c.advance(5, 77);
    assert_eq!(c.now(77), 105);
    c.clear();
    c.advance(5, 77);
    assert_eq!(c.now(0), 82);
    c.set_tick_interval(3);
    assert_eq!(c.tick_interval(), 3);
}

#[test]
fn leaked_descriptors_are_noticed() {
    let g = FdCountGuard::new("rt", 5);
    assert!(g.check(5).is_ok());
    let leak = g.check(6).unwrap_err();
    assert_eq!(leak.to_text(), "FdCountGuard [rt]: fd count changed: 6 != 5 (leak detected)");
    let fewer = g.check(4).unwrap_err();
    assert_eq!(fewer.to_text(), "FdCountGuard [rt]: fd count changed: 4 != 5 (leak detected)");
}

#[test]
fn the_receiver_keeps_trying() {
    let mut c = Connection::new();
    assert_eq!(c.recv_step(RecvEvent::Turn), RecvAction::Connect);
    assert_eq!(c.recv_step(RecvEvent::ConnectFailed), RecvAction::Retry { after_ms: 1000 });
    assert_eq!(c.state, AppState::Init);
    assert_eq!(c.recv_step(RecvEvent::Turn), RecvAction::Connect);
    let config =
        DisplayConfig { width: 1, height: 2, refresh_millihz: 3, dpi: 4, frame_mode: 5 };
    assert_eq!(c.on_config(config), None);
    assert_eq!(
        c.recv_step(RecvEvent::Connected),
        RecvAction::Welcome { config: Some(config) }
    );
    assert_eq!(c.recv_step(RecvEvent::Frame), RecvAction::Release);
    assert_eq!(c.recv_step(RecvEvent::Ended), RecvAction::Retry { after_ms: 1000 });
    assert_eq!(c.state, AppState::Disconnected);
    assert_eq!(c.recv_step(RecvEvent::ConnectFailed), RecvAction::Retry { after_ms: 1000 });
    assert_eq!(c.state, AppState::Disconnected, "there has been a session");
    assert_eq!(c.recv_step(RecvEvent::Connected), RecvAction::Welcome { config: None });
    c.stop();
    assert_eq!(c.recv_step(RecvEvent::Turn), RecvAction::Stop);
}

#[test]
fn one_session_is_opened_once() {
    let mut r: Registry<&str> = Registry::new();
    assert_eq!(r.next_id(), 1);
    assert_eq!(r.open("x"), (1, true));
    assert_eq!(r.open("y"), (1, false));
    assert_eq!(r.find(1), Some(&"x"));
    r.remove(1);
    assert_eq!(r.open("z"), (2, true), "handles are not used again");
}
