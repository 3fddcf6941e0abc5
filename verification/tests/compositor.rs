use wl_android::ahb_handle::parse_native_handle;
use wl_android::feedback::{
    build_default_feedback, discover_render_node_dev_t, dmabuf_imported, is_render_node,
};
use wl_android::frame_mem::{
    extract_dmabuf, extract_shm, shm_frame_size, ExtractedFrame, FrameMem,
};
use wl_android::paths::{
    land_socket_path, lock_path, reported_runtime_dir, runtime_dir, runtime_dir_configured,
    wayland_display, wayland_socket_path,
};
use wl_android::proto::{
    ConfigMessage, FrameMessage, KeyMessage, Message, ReleaseMessage, TouchMessage, MAGIC_CONFU,
    TOUCH_PHASE_CANCEL, TOUCH_PHASE_DOWN, TOUCH_PHASE_FRAME, TOUCH_PHASE_MOVE, TOUCH_PHASE_UP,
};
use wl_android::state::{
    handle_land_input, KeyState, LandAction, LandLink, PointerPlan, WlState,
};
use wl_android::surface_tree::{extract_tree, surface_tree_contains, surfaces, SurfaceTree};
use wl_android::touch::{TouchAction, TouchInjector};
use wl_android::transport::RecvError;

/// Stands for a descriptor.
struct TestFd;

/// Flattened buffer bytes of thirteen integers.
fn flat_bytes(w: i32, h: i32) -> Vec<u8> {
    let mut data = Vec::new();
    data.extend_from_slice(&0x3130_4247u32.to_le_bytes());
    data.extend_from_slice(&w.to_le_bytes());
    data.extend_from_slice(&h.to_le_bytes());
    data.extend_from_slice(&(w * 4).to_le_bytes());
    data.extend_from_slice(&1i32.to_le_bytes());
    data.extend_from_slice(&1i32.to_le_bytes());
    data.extend_from_slice(&0x100u32.to_le_bytes());
    data.extend_from_slice(&0i32.to_le_bytes());
    data.extend_from_slice(&0i32.to_le_bytes());
    data.extend_from_slice(&0i32.to_le_bytes());
    data.extend_from_slice(&1i32.to_le_bytes());
    data.extend_from_slice(&0i32.to_le_bytes());
    data.extend_from_slice(&0i32.to_le_bytes());
    data
}

#[test]
fn parse_flat_handle_real_aosp_format() {
    let data = flat_bytes(3392, 2400);
    assert_eq!(data.len(), 52);

    let result = parse_native_handle(&data, vec![TestFd]).unwrap();
    assert_eq!(result.num_fds, 1);
    assert_eq!(result.num_ints, 0);
    assert!(result.ints.is_empty());
    assert_eq!(result.fds.len(), 1);
}

#[test]
fn a_flat_tag_in_the_other_byte_order() {
    let mut data = flat_bytes(100, 100);
    assert_eq!(data[..4], [0x47, 0x42, 0x30, 0x31]);
    data[..4].copy_from_slice(&[0x31, 0x30, 0x42, 0x47]);
    let result = parse_native_handle(&data, vec![6u32, 7]).unwrap();
    assert_eq!((result.version, result.num_fds, result.num_ints), (0, 1, 0));
    assert!(result.ints.is_empty());
    assert_eq!(result.fds, vec![6]);
    assert!(parse_native_handle::<TestFd>(&data, vec![]).is_none());
    data[44] = 1;
    assert!(parse_native_handle(&data, vec![TestFd]).is_none());
    data.extend_from_slice(&(-5i32).to_le_bytes());
    assert_eq!(parse_native_handle(&data, vec![TestFd]).unwrap().ints, vec![-5]);
    data.truncate(51);
    assert!(parse_native_handle(&data, vec![TestFd]).is_none());
}

#[test]
fn parse_flat_handle_truncated_header() {
    let mut data = flat_bytes(100, 100);
    data.truncate(40);
    assert!(parse_native_handle(&data, vec![TestFd]).is_none());
}

#[test]
fn parse_flat_handle_no_fd_rejected() {
    let data = flat_bytes(100, 100);
    assert!(parse_native_handle::<TestFd>(&data, vec![]).is_none());
}

#[test]
fn parse_flat_handle_legacy_gbfr_format() {
    let mut data = Vec::new();
    data.extend_from_slice(&0x5246_4247u32.to_le_bytes());
    data.extend_from_slice(&100i32.to_le_bytes());
    data.extend_from_slice(&100i32.to_le_bytes());
    data.extend_from_slice(&400i32.to_le_bytes());
    data.extend_from_slice(&1i32.to_le_bytes());
    data.extend_from_slice(&1i32.to_le_bytes());
    data.extend_from_slice(&0x100u32.to_le_bytes());
    data.extend_from_slice(&0i32.to_le_bytes());
    data.extend_from_slice(&0i32.to_le_bytes());
    data.extend_from_slice(&0i32.to_le_bytes());
    data.extend_from_slice(&1i32.to_le_bytes());
    data.extend_from_slice(&0i32.to_le_bytes());

    let result = parse_native_handle(&data, vec![TestFd]).unwrap();
    assert_eq!(result.num_fds, 1);
    assert_eq!(result.num_ints, 0);
    assert_eq!(result.fds.len(), 1);
}

#[test]
fn parse_valid_legacy_handle() {
    let mut data = Vec::new();
    data.extend_from_slice(&(-1i32).to_le_bytes());
    data.extend_from_slice(&1i32.to_le_bytes());
    data.extend_from_slice(&2i32.to_le_bytes());
    data.extend_from_slice(&42i32.to_le_bytes());
    data.extend_from_slice(&99i32.to_le_bytes());

    let result = parse_native_handle(&data, vec![TestFd]).unwrap();
    assert_eq!(result.version, -1);
    assert_eq!(result.num_fds, 1);
    assert_eq!(result.num_ints, 2);
    assert_eq!(result.ints, vec![42, 99]);
    assert_eq!(result.fds.len(), 1);
}

#[test]
fn parse_too_short() {
    let data = [0u8; 4];
    assert!(parse_native_handle::<TestFd>(&data, vec![]).is_none());
}

#[test]
fn parse_legacy_not_enough_fds() {
    let mut data = Vec::new();
    data.extend_from_slice(&0i32.to_le_bytes());
    data.extend_from_slice(&2i32.to_le_bytes());
    data.extend_from_slice(&0i32.to_le_bytes());
    assert!(parse_native_handle(&data, vec![TestFd]).is_none());
}

#[test]
fn parse_negative_counts_rejected() {
    let mut data = Vec::new();
    data.extend_from_slice(&0i32.to_le_bytes());
    data.extend_from_slice(&(-1i32).to_le_bytes());
    data.extend_from_slice(&0i32.to_le_bytes());
    assert!(parse_native_handle(&data, vec![TestFd]).is_none());
    data[4..8].copy_from_slice(&0i32.to_le_bytes());
    data[8..12].copy_from_slice(&(-1i32).to_le_bytes());
    assert!(parse_native_handle(&data, vec![TestFd]).is_none());
    data[8..12].copy_from_slice(&1i32.to_le_bytes());
    assert!(parse_native_handle(&data, vec![TestFd]).is_none());
}

#[test]
fn parse_keeps_only_the_announced_fds() {
    let mut data = Vec::new();
    data.extend_from_slice(&0i32.to_le_bytes());
    data.extend_from_slice(&1i32.to_le_bytes());
    data.extend_from_slice(&0i32.to_le_bytes());
    assert_eq!(parse_native_handle(&data, vec![4u32, 5]).unwrap().fds, vec![4]);
}

#[test]
fn push_writes_full_frame_to_fd() {
    let mem = FrameMem::new(4, 4);
    let mut map = vec![0u8; mem.size()];
    let mut pixels = vec![0u8; 4 * 4 * 4];
    for (i, b) in pixels.iter_mut().enumerate() {
        *b = i as u8;
    }
    assert!(mem.push(&pixels, 4, 4, &mut map), "push");
    assert_eq!(map.len(), 4 * 4 * 4);
    assert_eq!(map, pixels);
}

#[test]
fn set_dimensions_rebuilds_larger() {
    let mut mem = FrameMem::new(4, 4);
    assert!(mem.needs_rebuild(8, 8));
    assert!(mem.set_dimensions(8, 8, true));
    assert_eq!(mem.size(), 8 * 8 * 4);
    let pixels = vec![0xABu8; 8 * 8 * 4];
    let mut map = vec![0u8; mem.size()];
    assert!(mem.push(&pixels, 8, 8, &mut map), "push after grow");
    assert_eq!(map.len(), 8 * 8 * 4);
    assert_eq!(map, pixels);
}

#[test]
fn push_size_mismatch_returns_none() {
    let mem = FrameMem::new(4, 4);
    let pixels = vec![0u8; 4 * 4 * 4 - 1];
    let mut map = vec![7u8; mem.size()];
    assert!(!mem.push(&pixels, 4, 4, &mut map));
    assert_eq!(map, vec![7u8; 64]);
}

#[test]
fn a_buffer_that_could_not_be_rebuilt_stays() {
    let mut mem = FrameMem::new(4, 4);
    assert!(!mem.set_dimensions(8, 8, false));
    assert!(mem.set_dimensions(4, 4, false));
    assert_eq!(mem.size(), 64);
    assert!(!mem.push(&[0; 256], 8, 8, &mut vec![0u8; 64]));
}

#[test]
fn shared_memory_sizes() {
    assert_eq!(shm_frame_size(400, 50), Some((100, 50)));
    assert_eq!(shm_frame_size(402, 50), Some((100, 50)));
    assert_eq!(shm_frame_size(0, 50), None);
    assert_eq!(shm_frame_size(400, 0), None);
}

#[test]
fn frames_come_from_the_gpu_or_from_shared_memory() {
    let f = extract_dmabuf(false, 8, 6, Some(3u32)).unwrap();
    assert!(matches!(f, ExtractedFrame::Dmabuf { .. }));
    assert_eq!(f.size(), (8, 6));
    assert_eq!(f.into_fd(), 3);
    assert!(extract_dmabuf(true, 8, 6, Some(3u32)).is_none());
    assert!(extract_dmabuf(false, 8, 6, None::<u32>).is_none());
    let f = extract_shm(40, 6, Some(4u32)).unwrap();
    assert!(matches!(f, ExtractedFrame::Shm { .. }));
    assert_eq!(f.size(), (10, 6));
    assert_eq!(f.into_fd(), 4);
    assert!(extract_shm(40, 6, None::<u32>).is_none());
}

#[test]
fn a_new_app_takes_the_place_of_the_old_one() {
    let mut link = LandLink::new();
    assert!(!link.accepted());
    assert!(link.registered(true));
    assert!(link.accepted(), "the old socket is no longer watched");
    assert_eq!(link, LandLink { session: true, watched: false });
    assert!(!link.registered(false));
    assert!(!link.input(&LandAction::<u32>::Idle));
    assert!(link.input(&LandAction::<u32>::TearDown(RecvError::PeerClosed)));
    assert!(!link.session);
    assert!(!link.input(&LandAction::<u32>::TearDown(RecvError::PeerClosed)));
}

#[test]
fn the_pointer_follows_the_focus() {
    let mut s = WlState::new();
    assert_eq!(s.focus_changed(true, Some(1), None), Some(1));
    assert_eq!(s.focus_changed(true, Some(1), Some(1)), None);
    assert_eq!(s.focus_changed(true, Some(2), Some(1)), Some(2));
    assert_eq!(s.focus_changed(true, None, Some(1)), None);
    assert_eq!(s.focus_changed(false, Some(2), None), None);
}

#[test]
fn key_down_maps_to_pressed() {
    assert_eq!(WlState::key_state_from_u32(1), KeyState::Pressed);
}

#[test]
fn key_up_maps_to_released() {
    assert_eq!(WlState::key_state_from_u32(0), KeyState::Released);
}

#[test]
fn malformed_state_defaults_to_released() {
    assert_eq!(WlState::key_state_from_u32(7), KeyState::Released);
    assert_eq!(WlState::key_state_from_u32(u32::MAX), KeyState::Released);
}

#[test]
fn bucket_dpi_maps_panel_289_to_288() {
    assert_eq!(WlState::bucket_dpi(289), 288, "panel DPI must bucket to the 2x integer");
}

#[test]
fn bucket_dpi_exact_values_pass_through() {
    for dpi in [96u32, 120, 144, 160, 192, 240, 288, 384] {
        assert_eq!(WlState::bucket_dpi(dpi), dpi, "exact bucket must be identity");
    }
}

#[test]
fn bucket_dpi_rounds_to_nearest_bucket() {
    assert_eq!(WlState::bucket_dpi(90), 96, "below the smallest bucket rounds up");
    assert_eq!(WlState::bucket_dpi(110), 120, "midway rounds to the larger bucket");
    assert_eq!(WlState::bucket_dpi(0), 96, "degenerate input clamps to the smallest");
    assert_eq!(WlState::bucket_dpi(1000), 384, "above the largest bucket saturates");
}

#[test]
fn bucket_dpi_never_falls() {
    let mut last = 0;
    for raw in 0..500 {
        let b = WlState::bucket_dpi(raw);
        assert!(b >= last);
        assert_eq!(WlState::bucket_dpi(b), b);
        last = b;
    }
    assert_eq!(WlState::bucket_dpi(107), 96);
    assert_eq!(WlState::bucket_dpi(108), 120, "of two at the same distance, the larger");
    assert_eq!(WlState::bucket_dpi(336), 384, "of two at the same distance, the larger");
}

#[test]
fn a_fresh_compositor() {
    let s = WlState::new();
    assert_eq!(s.screen_size(), (3392, 2400));
    assert_eq!(s.refresh_millihz(), 144000);
    assert_eq!(s.vsync_period(), 6_944_444);
    assert_eq!(s.config_update().dpi, 288);
    assert_eq!(s.logical_size(), (3392, 2400));
}

#[test]
fn keys() {
    let mut s = WlState::new();
    let msg = KeyMessage::new(30, 1, 77);
    assert_eq!(s.handle_key(&msg, false, true), None);
    let plan = s.handle_key(&msg, true, true).unwrap();
    let first = plan.focus_serial.unwrap();
    assert_eq!(plan.serial, first + 1);
    assert_eq!((plan.keycode, plan.state, plan.time_ms), (38, KeyState::Pressed, 77));
    let plan = s.handle_key(&KeyMessage::new(u32::MAX, 0, 0), true, false).unwrap();
    assert_eq!(plan.focus_serial, None);
    assert_eq!(plan.serial, first + 2);
    assert_eq!((plan.keycode, plan.state), (7, KeyState::Released));
    assert_eq!(s.take_serial(), first + 3);
}

fn touch(id: i32, phase: u32) -> TouchMessage {
    TouchMessage::new(id, 0, 0, phase, 0)
}

#[test]
fn touches() {
    let mut s = WlState::new();
    let (a, n, p) = s.handle_touch(&touch(2, TOUCH_PHASE_DOWN), true, true);
    assert_eq!((a, p), (TouchAction::Down { slot: 2, serial: 1 }, PointerPlan::MoveAndPress));
    let (a, m, p) = s.handle_touch(&touch(2, TOUCH_PHASE_MOVE), true, true);
    assert_eq!((a, m, p), (TouchAction::Motion { slot: 2 }, n + 1, PointerPlan::Move));
    let (a, _, p) = s.handle_touch(&touch(2, TOUCH_PHASE_UP), true, false);
    assert_eq!((a, p), (TouchAction::Up { slot: 2, serial: 2 }, PointerPlan::Nothing));
    let (a, _, p) = s.handle_touch(&touch(2, TOUCH_PHASE_UP), false, true);
    assert_eq!((a, p), (TouchAction::Ignore, PointerPlan::Release));
    let (_, _, p) = s.handle_touch(&touch(2, TOUCH_PHASE_FRAME), true, true);
    assert_eq!(p, PointerPlan::Nothing);
}

#[test]
fn only_touches_that_are_down_move_or_end() {
    let mut i = TouchInjector::new(10, 20);
    assert_eq!(i.handle(1, TOUCH_PHASE_MOVE), TouchAction::Ignore);
    assert_eq!(i.handle(1, TOUCH_PHASE_UP), TouchAction::Ignore);
    assert_eq!(i.handle(-1, TOUCH_PHASE_DOWN), TouchAction::Down { slot: u32::MAX, serial: 1 });
    assert_eq!(i.handle(-1, TOUCH_PHASE_UP), TouchAction::Up { slot: u32::MAX, serial: 2 });
    assert_eq!(i.handle(-1, TOUCH_PHASE_UP), TouchAction::Ignore);
    assert_eq!(i.handle(5, TOUCH_PHASE_FRAME), TouchAction::Frame);
    assert_eq!(i.handle(5, 9), TouchAction::Ignore);
    assert_eq!(TouchInjector::slot_for(-1), u32::MAX);
}

#[test]
fn a_cancel_ends_all_touches() {
    let mut i = TouchInjector::new(10, 20);
    i.handle(1, TOUCH_PHASE_DOWN);
    i.handle(2, TOUCH_PHASE_DOWN);
    assert_eq!(i.handle(1, TOUCH_PHASE_CANCEL), TouchAction::Cancel);
    assert_eq!(i.handle(2, TOUCH_PHASE_MOVE), TouchAction::Ignore);
    assert_eq!(i.handle(1, TOUCH_PHASE_UP), TouchAction::Ignore);
    i.set_logical_size(3, 4);
    assert_eq!(i.logical_size(), (3, 4));
}

#[test]
fn configurations() {
    let mut s = WlState::new();
    let plan = s.apply_config(800, 600, 60000, 170, 2, true, true);
    assert!(plan.configure);
    let m = plan.reply.unwrap();
    assert_eq!(
        m,
        ConfigMessage {
            magic: MAGIC_CONFU,
            protocol_version: 3,
            width: 800,
            height: 600,
            refresh_millihz: 60000,
            dpi: 160,
            app_caps: 0,
            frame_mode: 2,
        }
    );
    assert_eq!(s.screen_size(), (800, 600));
    assert_eq!(s.logical_size(), (800, 600));
    assert_eq!((s.refresh_millihz(), s.dpi(), s.frame_mode()), (60000, 170, 2));
    assert_eq!(s.config_update(), m);
    let plan = s.apply_config(800, 600, 90000, 170, 2, true, false);
    assert!(!plan.configure && plan.reply.is_none());
    let plan = s.apply_config(801, 600, 90000, 170, 2, false, false);
    assert!(!plan.configure);
}

#[test]
fn only_full_screen_frames_of_the_output_go_out() {
    let s = WlState::new();
    assert!(s.commit(true, Some((3392, 2400)), true));
    assert!(!s.commit(true, Some((3391, 2400)), true));
    assert!(!s.commit(false, Some((3392, 2400)), true));
    assert!(!s.commit(true, Some((3392, 2400)), false));
    assert!(!s.commit(true, None, true));
}

#[test]
fn the_vsync_clock() {
    let mut s = WlState::new();
    assert_eq!(s.vsync_tick(0, 0, 5), None);
    let t = s.vsync_tick(1, 0, 0x1_0000_0007).unwrap();
    assert_eq!((t.now_ms, t.period_ns), (7, 6_944_444));
    let u = s.vsync_tick(0, 2, 9).unwrap();
    assert_eq!(u.seq, t.seq + 1);
    s.apply_config(1, 1, 0, 96, 0, false, false);
    assert_eq!(s.vsync_period(), 1_000_000_000_000);
}

#[test]
fn messages_of_the_app() {
    let touch_msg = touch(0, 0);
    let key = KeyMessage::new(1, 1, 1);
    let conf = ConfigMessage::new(1, 2, 3, 4, 0, 0);
    let got = |m: Message<u32>| handle_land_input(Ok(Some(m)));
    assert!(matches!(got(Message::Release(ReleaseMessage::new())), LandAction::Released));
    assert!(matches!(got(Message::Touch(touch_msg)), LandAction::Touch(m) if m == touch_msg));
    assert!(matches!(got(Message::Key(key)), LandAction::Key(m) if m == key));
    assert!(matches!(got(Message::Config(conf)), LandAction::Apply(m) if m == conf));
    assert!(matches!(
        got(Message::Frame(FrameMessage::new(1, 1), vec![1])),
        LandAction::Unexpected(Message::Frame(..))
    ));
    assert!(matches!(handle_land_input::<u32>(Ok(None)), LandAction::Idle));
    assert!(matches!(
        handle_land_input::<u32>(Err(RecvError::PeerClosed)),
        LandAction::TearDown(RecvError::PeerClosed)
    ));
}

fn leaf(id: u64) -> SurfaceTree {
    SurfaceTree { id, children: vec![] }
}

#[test]
fn surfaces_come_before_their_subsurfaces() {
    let tree = SurfaceTree {
        id: 1,
        children: vec![SurfaceTree { id: 2, children: vec![leaf(3)] }, leaf(4)],
    };
    assert_eq!(surfaces(&tree), vec![1, 2, 3, 4]);
    assert!(surface_tree_contains(&tree, 3));
    assert!(!surface_tree_contains(&tree, 5));
    assert_eq!(extract_tree(&tree, |id| if id >= 3 { Some(id * 10) } else { None }), Some(30));
    assert_eq!(extract_tree(&tree, |_| None::<u64>), None);
}

#[test]
fn render_nodes() {
    assert!(is_render_node("renderD128"));
    assert!(!is_render_node("card0"));
    let entry = |name: &str, dev: Option<u64>| (name.to_string(), dev);
    let mut entries = vec![entry("card0", Some(1)), entry("renderD128", None)];
    assert_eq!(discover_render_node_dev_t(&entries), None);
    entries.push(entry("renderD129", Some(3)));
    entries.push(entry("renderD130", Some(4)));
    assert_eq!(discover_render_node_dev_t(&entries), Some(3));
    assert!(!is_render_node("render"));
    let offered = build_default_feedback();
    let codes: Vec<(u32, u64)> = offered.iter().map(|f| (f.fourcc, f.modifier)).collect();
    assert_eq!(
        codes,
        vec![(0x34325258, 0), (0x34325241, 0), (0x34324258, 0), (0x34324241, 0)]
    );
    assert!(dmabuf_imported(1));
    assert!(!dmabuf_imported(0));
}

#[test]
fn paths_of_the_sockets() {
    assert_eq!(wayland_display(None), "land-0");
    assert_eq!(wayland_display(Some("w9".to_string())), "w9");
    assert_eq!(runtime_dir(Some("/run/x".to_string()), None), "/run/x");
    for empty in [None, Some(String::new())] {
        assert_eq!(
            runtime_dir(empty.clone(), Some("/home/u".to_string())),
            "/home/u/.cache/wl-runtime"
        );
        assert_eq!(runtime_dir(empty.clone(), None), "/tmp/.cache/wl-runtime");
        assert!(!runtime_dir_configured(&empty));
    }
    assert_eq!(wayland_socket_path("/run/x", "wayland-0"), "/run/x/wayland-0");
    assert_eq!(lock_path("/run/x/wayland-0"), "/run/x/wayland-0.lock");
    assert_eq!(land_socket_path(Some("/l.sock".to_string()), "/run/x"), "/l.sock");
    assert!(runtime_dir_configured(&Some("/run".to_string())));
    assert_eq!(land_socket_path(None, "/run/x"), "/run/x/wl-android/land.sock");
    assert_eq!(reported_runtime_dir(Some("/run/y".to_string())), "/run/y");
    assert_eq!(reported_runtime_dir(None), "/tmp");
}
