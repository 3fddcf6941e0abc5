use wl_android::frame_router::{FrameRouter, RouterAction, RouterEvent, MAX_IN_FLIGHT};

#[test]
fn sends_up_to_max_in_flight() {
    let mut r = FrameRouter::new();
    r.handle(RouterEvent::AppConnected);

    let a1 = r.handle(RouterEvent::Commit { buffer_id: 1, has_fds: true, serial: 0 });
    assert_eq!(a1[0], RouterAction::EnqueueFrame { buffer_id: 1, serial: 1, has_fds: true });

    let a2 = r.handle(RouterEvent::Commit { buffer_id: 2, has_fds: true, serial: 0 });
    assert_eq!(a2[0], RouterAction::EnqueueFrame { buffer_id: 2, serial: 2, has_fds: true });

    let a3 = r.handle(RouterEvent::Commit { buffer_id: 3, has_fds: true, serial: 0 });
    assert!(a3.is_empty(), "third frame should be held (backpressure)");
    assert!(r.pending_frame.is_some());
    assert_eq!(r.in_flight.len(), MAX_IN_FLIGHT);
}

#[test]
fn latest_wins_replaces_pending() {
    let mut r = FrameRouter::new();
    r.handle(RouterEvent::AppConnected);

    r.handle(RouterEvent::Commit { buffer_id: 1, has_fds: true, serial: 0 });
    r.handle(RouterEvent::Commit { buffer_id: 2, has_fds: true, serial: 0 });
    let a3 = r.handle(RouterEvent::Commit { buffer_id: 3, has_fds: true, serial: 0 });
    assert!(a3.is_empty(), "first held frame: no callback");
    let a4 = r.handle(RouterEvent::Commit { buffer_id: 4, has_fds: true, serial: 0 });
    assert_eq!(a4[0], RouterAction::FireCallback);
    assert!(r.pending_frame.is_some());
}

#[test]
fn app_connected_clears_registry() {
    let mut r = FrameRouter::new();
    r.handle(RouterEvent::AppConnected);

    let a1 = r.handle(RouterEvent::Commit { buffer_id: 1, has_fds: true, serial: 0 });
    assert_eq!(a1[0], RouterAction::EnqueueFrame { buffer_id: 1, serial: 1, has_fds: true });

    r.handle(RouterEvent::Commit { buffer_id: 1, has_fds: true, serial: 0 });
    let ack_actions = r.handle(RouterEvent::AppAck { serial: 1 });
    assert!(ack_actions.iter().any(|a| *a == RouterAction::ReleaseBuffer { buffer_id: 0 }));

    let a2b = r.handle(RouterEvent::Commit { buffer_id: 1, has_fds: true, serial: 0 });
    assert_eq!(a2b[0], RouterAction::EnqueueFrame { buffer_id: 1, serial: 3, has_fds: false });

    r.handle(RouterEvent::AppLost);
    r.handle(RouterEvent::AppConnected);

    let a3 = r.handle(RouterEvent::Commit { buffer_id: 1, has_fds: true, serial: 0 });
    assert_eq!(a3[0], RouterAction::EnqueueFrame { buffer_id: 1, serial: 4, has_fds: true });
}

#[test]
fn headless_drain_discards_without_app() {
    let mut r = FrameRouter::new();
    let actions = r.handle(RouterEvent::Commit { buffer_id: 1, has_fds: true, serial: 0 });
    assert!(actions.iter().any(|a| *a == RouterAction::FireCallback));
    assert!(r.in_flight.is_empty());
}

#[test]
fn cumulative_ack_releases_up_to_serial() {
    let mut r = FrameRouter::new();
    r.handle(RouterEvent::AppConnected);

    r.handle(RouterEvent::Commit { buffer_id: 1, has_fds: true, serial: 0 });
    r.handle(RouterEvent::Commit { buffer_id: 2, has_fds: true, serial: 0 });

    let actions = r.handle(RouterEvent::AppAck { serial: 2 });
    assert!(
        actions.iter().filter(|a| matches!(a, RouterAction::ReleaseBuffer { .. })).count() == 2
    );
    assert!(actions.iter().any(|a| *a == RouterAction::FireCallback));
    assert!(r.in_flight.is_empty());
}

#[test]
fn app_lost_auto_acks_in_flight() {
    let mut r = FrameRouter::new();
    r.handle(RouterEvent::AppConnected);
    r.handle(RouterEvent::Commit { buffer_id: 1, has_fds: true, serial: 0 });
    r.handle(RouterEvent::Commit { buffer_id: 2, has_fds: true, serial: 0 });

    let actions = r.handle(RouterEvent::AppLost);
    assert!(
        actions.iter().filter(|a| matches!(a, RouterAction::ReleaseBuffer { .. })).count() == 2
    );
    assert!(actions.iter().filter(|a| **a == RouterAction::FireCallback).count() >= 2);
    assert!(r.in_flight.is_empty());
    assert!(!r.app_connected);
}

#[test]
fn serial_monotonic() {
    let mut r = FrameRouter::new();
    r.handle(RouterEvent::AppConnected);

    let a1 = r.handle(RouterEvent::Commit { buffer_id: 1, has_fds: true, serial: 0 });
    if let RouterAction::EnqueueFrame { serial: s1, .. } = a1[0] {
        assert_eq!(s1, 1);
    } else {
        panic!();
    }

    let a2 = r.handle(RouterEvent::Commit { buffer_id: 1, has_fds: true, serial: 0 });
    let _ = r.handle(RouterEvent::AppAck { serial: 1 });
    let _ = r.handle(RouterEvent::Commit { buffer_id: 1, has_fds: true, serial: 0 });
    if let RouterAction::EnqueueFrame { serial: s2, .. } = a2[0] {
        assert_eq!(s2, 2);
    } else {
        panic!();
    }
}

#[test]
fn compositor_lost_clears_pending() {
    let mut r = FrameRouter::new();
    r.handle(RouterEvent::AppConnected);
    r.handle(RouterEvent::Commit { buffer_id: 1, has_fds: true, serial: 0 });
    r.handle(RouterEvent::Commit { buffer_id: 2, has_fds: true, serial: 0 });
    r.handle(RouterEvent::Commit { buffer_id: 3, has_fds: true, serial: 0 });

    r.handle(RouterEvent::CompositorLost);
    assert!(r.pending_frame.is_none());
    assert!(!r.compositor_connected);
}

#[test]
fn a_held_frame_goes_out_with_its_descriptors() {
    let mut r = FrameRouter::new();
    r.handle(RouterEvent::AppConnected);
    r.handle(RouterEvent::Commit { buffer_id: 1, has_fds: true, serial: 0 });
    r.handle(RouterEvent::Commit { buffer_id: 2, has_fds: true, serial: 0 });
    r.handle(RouterEvent::Commit { buffer_id: 3, has_fds: true, serial: 0 });

    let actions = r.handle(RouterEvent::AppAck { serial: 1 });
    assert_eq!(
        actions,
        vec![
            RouterAction::ReleaseBuffer { buffer_id: 0 },
            RouterAction::EnqueueFrame { buffer_id: 3, serial: 4, has_fds: true },
            RouterAction::FireCallback,
        ]
    );
    assert_eq!(r.in_flight, vec![(2, 2), (4, 3)]);
    assert!(r.pending_frame.is_none());
}

#[test]
fn losing_the_app_releases_by_buffer_and_fires_for_the_held_frame() {
    let mut r = FrameRouter::new();
    r.handle(RouterEvent::AppConnected);
    for buffer_id in 1..4 {
        r.handle(RouterEvent::Commit { buffer_id, has_fds: true, serial: 0 });
    }
    assert_eq!(
        r.handle(RouterEvent::AppLost),
        vec![
            RouterAction::ReleaseBuffer { buffer_id: 1 },
            RouterAction::ReleaseBuffer { buffer_id: 2 },
            RouterAction::FireCallback,
            RouterAction::FireCallback,
            RouterAction::FireCallback,
        ]
    );
}

#[test]
fn an_old_acknowledgement_changes_nothing() {
    let mut r = FrameRouter::new();
    r.handle(RouterEvent::AppConnected);
    r.handle(RouterEvent::Commit { buffer_id: 1, has_fds: false, serial: 9 });
    assert!(r.handle(RouterEvent::AppAck { serial: 0 }).is_empty());
    assert_eq!(r.in_flight, vec![(1, 1)]);
}
