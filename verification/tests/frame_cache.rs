use wl_android::damage::copy_rects;
use wl_android::frame_cache::{copy_front, ensure_size, frame_bytes, FrameCache, Rect};

/// The memory behind a cache. A descriptor is the generation of the pool and
/// the buffer in it; what a pool held before a rebuild stays readable.
struct Pool {
    cache: FrameCache,
    generations: Vec<Vec<Vec<u8>>>,
}

type Fd = (usize, usize);

impl Pool {
    fn new(w: u32, h: u32) -> Self {
        let size = frame_bytes(w, h);
        Pool { cache: FrameCache::new(w, h), generations: vec![vec![vec![0; size], vec![0; size]]] }
    }

    fn read(&self, fd: Fd) -> &Vec<u8> {
        &self.generations[fd.0][fd.1]
    }

    fn grow(&mut self, needed: usize) -> (usize, usize) {
        let g = self.generations.len() - 1;
        let t = self.cache.target();
        if let Some(size) = ensure_size(self.generations[g][t].len(), needed) {
            self.generations[g][t].resize(size, 0);
        }
        (g, t)
    }

    fn push(&mut self, data: &[u8], w: u32, h: u32) -> Option<Fd> {
        let (g, t) = self.grow(frame_bytes(w, h));
        self.cache.push(data, w, h, &mut self.generations[g][t], |i| Some((g, i)))
    }

    fn push_from<W: FnOnce(&mut [u8])>(&mut self, w: u32, h: u32, write: W) -> Option<Fd> {
        let (g, t) = self.grow(frame_bytes(w, h));
        self.cache.push_from(w, h, &mut self.generations[g][t], write, |i| Some((g, i)))
    }

    fn push_damaged<W: FnOnce(&mut [u8], &[Rect])>(
        &mut self,
        w: u32,
        h: u32,
        rects: &[Rect],
        write: W,
    ) -> Option<Fd> {
        let (g, t) = self.grow(frame_bytes(w, h));
        self.cache.push_damaged(w, h, rects, &mut self.generations[g][t], write, |i| Some((g, i)))
    }

    fn set_dimensions(&mut self, w: u32, h: u32) {
        let differs = self.cache.size_differs(w, h);
        if differs {
            let size = frame_bytes(w, h);
            self.generations.push(vec![vec![0; size], vec![0; size]]);
        }
        self.cache.set_dimensions(w, h, differs);
    }

    fn current_frame(&self) -> Option<(Fd, u64, u32, u32)> {
        let g = self.generations.len() - 1;
        self.cache.current_frame(|i| Some((g, i)))
    }
}

fn rect(x: u32, y: u32, w: u32, h: u32) -> Rect {
    Rect { x, y, w, h }
}

fn frame_data(w: u32, h: u32, byte: u8) -> Vec<u8> {
    vec![byte; w as usize * h as usize * 4]
}

fn fill_pattern(w: u32, h: u32, seed: u8) -> Vec<u8> {
    let mut v = vec![0u8; w as usize * h as usize * 4];
    for (i, b) in v.iter_mut().enumerate() {
        *b = seed.wrapping_add(i as u8);
    }
    v
}

fn write_rect(dst: &mut [u8], rect: &Rect, w: u32, src: &[u8]) {
    let stride = w as usize * 4;
    for y in rect.y..rect.y + rect.h {
        let row = y as usize * stride + rect.x as usize * 4;
        let bytes = rect.w as usize * 4;
        dst[row..row + bytes].copy_from_slice(&src[row..row + bytes]);
    }
}

fn sorted(rects: &[Rect]) -> Vec<Rect> {
    let mut v = rects.to_vec();
    v.sort_by_key(|r| (r.x, r.y));
    v
}

#[test]
fn dimension_change_reallocates_not_shrinks() {
    let mut pool = Pool::new(100, 100);

    let old_fd = pool.push(&frame_data(100, 100, 1), 100, 100).expect("push 100x100");
    let prev_seq = pool.cache.seq();
    assert!(prev_seq >= 1);
    let map_len = 100usize * 100 * 4;

    pool.set_dimensions(50, 50);

    let byte = pool.read(old_fd)[map_len - 1];
    assert_eq!(byte, 1, "stale mmap must stay readable after resize (no in-place shrink)");

    let new_fd = pool.push(&frame_data(50, 50, 7), 50, 50).expect("push 50x50 after resize");
    assert_eq!(pool.read(new_fd).len(), 50 * 50 * 4, "new buffer must be 50x50x4 bytes");
    assert_ne!(new_fd, old_fd, "resize must allocate fresh memfds");
    assert!(pool.cache.seq() >= prev_seq, "seq must stay monotonic across resize");

    let (cur, _, w, h) = pool.current_frame().expect("current frame after resize");
    assert_eq!((w, h), (50, 50));
    assert_eq!(pool.read(cur).len(), 50 * 50 * 4);
}

#[test]
fn set_dimensions_noop_same_size() {
    let mut pool = Pool::new(100, 100);

    let mut fds = Vec::new();
    for _ in 0..2 {
        fds.push(pool.push(&frame_data(100, 100, 1), 100, 100).unwrap());
    }
    let seq_before = pool.cache.seq();
    assert_eq!(seq_before, 2);

    pool.set_dimensions(100, 100);

    assert_eq!(pool.cache.seq(), seq_before, "no-op resize must not touch seq");
    let fd = pool.push(&frame_data(100, 100, 2), 100, 100).unwrap();
    assert_eq!(pool.read(fd).len(), 100 * 100 * 4, "buffer size unchanged");
    assert_eq!(fd, fds[0], "no-op resize must not rebuild the pool");
    let (_, _, w, h) = pool.current_frame().expect("current frame");
    assert_eq!((w, h), (100, 100));
}

#[test]
fn set_dimensions_grow_creates_larger_buffers() {
    let mut pool = Pool::new(100, 100);
    let old_fd = pool.push(&frame_data(100, 100, 1), 100, 100).unwrap();

    pool.set_dimensions(200, 150);

    let fd = pool.push(&frame_data(200, 150, 2), 200, 150).unwrap();
    assert_eq!(pool.read(fd).len(), 200 * 150 * 4, "grow must yield 200x150x4 buffers");
    assert_ne!(fd, old_fd, "grow must allocate a fresh pool");
    let (cur, _, w, h) = pool.current_frame().expect("current frame");
    assert_eq!((w, h), (200, 150));
    assert_eq!(pool.read(cur).len(), 200 * 150 * 4);
}

#[test]
fn set_dimensions_keeps_seq_monotonic() {
    let mut pool = Pool::new(100, 100);
    assert_eq!(pool.cache.seq(), 0);

    pool.push(&frame_data(100, 100, 1), 100, 100).unwrap();
    assert_eq!(pool.cache.seq(), 1);

    pool.set_dimensions(50, 50);
    assert_eq!(pool.cache.seq(), 1, "resize must not reset seq");
    pool.push(&frame_data(50, 50, 2), 50, 50).unwrap();
    assert_eq!(pool.cache.seq(), 2);

    pool.set_dimensions(200, 200);
    assert_eq!(pool.cache.seq(), 2, "resize must not reset seq");
    pool.push(&frame_data(200, 200, 3), 200, 200).unwrap();
    assert_eq!(pool.cache.seq(), 3, "seq strictly monotonic across resizes");
}

#[test]
fn push_from_writes_through_resident_mapping() {
    let mut pool = Pool::new(4, 4);

    let fd = pool
        .push_from(4, 4, |dst| {
            assert_eq!(dst.len(), 4 * 4 * 4);
            for y in 0..4u8 {
                for x in 0..16usize {
                    dst[y as usize * 16 + x] = y;
                }
            }
        })
        .expect("push_from");

    let bytes = pool.read(fd);
    assert_eq!(bytes.len(), 64);
    for y in 0..4u8 {
        for x in 0..16usize {
            assert_eq!(bytes[y as usize * 16 + x], y, "row {} col {}", y, x);
        }
    }
}

#[test]
fn push_from_rotation_wraps_cleanly() {
    let mut pool = Pool::new(2, 2);

    let mut fds = Vec::new();
    for i in 0..5u8 {
        let fd = pool
            .push_from(2, 2, |dst| {
                for b in dst.iter_mut() {
                    *b = i;
                }
            })
            .expect("push_from");
        fds.push(fd);
        assert_eq!(pool.cache.seq(), (i + 1) as u64);
    }

    assert_eq!(fds[2], fds[0], "3rd push must reuse buffer 0");
    assert_eq!(fds[3], fds[1], "4th push must reuse buffer 1");
    assert_eq!(fds[4], fds[0], "5th push must reuse buffer 0");
    assert_eq!(pool.cache.seq(), 5, "seq counts every push");
}

#[test]
fn push_damaged_first_write_is_full_frame() {
    let mut pool = Pool::new(4, 4);
    let full = fill_pattern(4, 4, 1);

    let fd = pool
        .push_damaged(4, 4, &[rect(0, 0, 1, 1)], |dst, effective| {
            assert_eq!(effective, &[rect(0, 0, 4, 4)], "first write must be full-frame");
            for r in effective {
                write_rect(dst, r, 4, &full);
            }
        })
        .expect("push_damaged");
    assert_eq!(*pool.read(fd), full, "first frame must contain the full pattern");
}

#[test]
fn push_damaged_partial_write_preserves_untouched() {
    let mut pool = Pool::new(4, 4);
    let frame1 = fill_pattern(4, 4, 1);
    let frame2 = fill_pattern(4, 4, 2);
    let frame3 = fill_pattern(4, 4, 3);

    pool.push_damaged(4, 4, &[rect(0, 0, 4, 4)], |dst, effective| {
        for r in effective {
            write_rect(dst, r, 4, &frame1);
        }
    })
    .expect("frame 1");
    pool.cache.on_release();
    pool.push_damaged(4, 4, &[rect(0, 0, 1, 1)], |dst, effective| {
        assert_eq!(effective, &[rect(0, 0, 4, 4)], "B's first write must be full-frame");
        for r in effective {
            write_rect(dst, r, 4, &frame2);
        }
    })
    .expect("frame 2");
    pool.cache.on_release();

    let small = rect(0, 0, 2, 2);
    let fd = pool
        .push_damaged(4, 4, &[small], |dst, effective| {
            assert_eq!(effective, &[small], "partial write must only repaint the damaged rect");
            for r in effective {
                write_rect(dst, r, 4, &frame3);
            }
        })
        .expect("frame 3");

    let mut expected = frame1.clone();
    write_rect(&mut expected, &small, 4, &frame3);
    assert_eq!(*pool.read(fd), expected, "damaged rect updated, untouched regions preserved");
}

#[test]
fn push_damaged_alternation_accumulates_both_frames() {
    let mut pool = Pool::new(4, 4);
    let full = fill_pattern(4, 4, 1);

    pool.push_damaged(4, 4, &[rect(0, 0, 4, 4)], |dst, effective| {
        for r in effective {
            write_rect(dst, r, 4, &full);
        }
    })
    .expect("frame N");

    let f2 = fill_pattern(4, 4, 2);
    pool.push_damaged(4, 4, &[rect(0, 0, 1, 1)], |dst, effective| {
        assert_eq!(effective, &[rect(0, 0, 4, 4)], "B's first write must be full-frame");
        for r in effective {
            write_rect(dst, r, 4, &f2);
        }
    })
    .expect("frame N+1");
    let current = pool.current_frame().unwrap().0;
    assert_eq!(*pool.read(current), f2, "B = full pattern 2");

    let r1 = rect(0, 0, 1, 1);
    let r2 = rect(2, 2, 1, 1);
    let f3 = fill_pattern(4, 4, 3);
    pool.cache.on_release();
    let fd = pool
        .push_damaged(4, 4, &[r2], |dst, effective| {
            assert_eq!(
                sorted(effective),
                sorted(&[r1, r2]),
                "A must repaint every rect since its last write (N+1's and this frame's)"
            );
            for r in effective {
                write_rect(dst, r, 4, &f3);
            }
        })
        .expect("frame N+2");
    let mut expected_a = full.clone();
    write_rect(&mut expected_a, &r1, 4, &f3);
    write_rect(&mut expected_a, &r2, 4, &f3);
    assert_eq!(*pool.read(fd), expected_a, "buffer A = frame N + rects from N+1 and N+2");
}

#[test]
fn full_write_then_partial_on_other_buffer_repaints_all() {
    let mut pool = Pool::new(4, 4);
    let frame1 = fill_pattern(4, 4, 1);

    pool.push_from(4, 4, |dst| dst.copy_from_slice(&frame1)).expect("frame 1 (full)");

    let frame2 = fill_pattern(4, 4, 2);
    pool.push_damaged(4, 4, &[rect(1, 1, 1, 1)], |dst, effective| {
        assert_eq!(effective, &[rect(0, 0, 4, 4)], "B's first write must be full-frame");
        for r in effective {
            write_rect(dst, r, 4, &frame2);
        }
    })
    .expect("frame 2");

    let frame3 = fill_pattern(4, 4, 3);
    let fd = pool
        .push_damaged(4, 4, &[rect(2, 2, 1, 1)], |dst, effective| {
            assert_eq!(
                sorted(effective),
                sorted(&[rect(1, 1, 1, 1), rect(2, 2, 1, 1)]),
                "A repaints every rect it missed since its last write"
            );
            for r in effective {
                write_rect(dst, r, 4, &frame3);
            }
        })
        .expect("frame 3");
    let mut expected_a = frame1.clone();
    write_rect(&mut expected_a, &rect(1, 1, 1, 1), 4, &frame3);
    write_rect(&mut expected_a, &rect(2, 2, 1, 1), 4, &frame3);
    assert_eq!(*pool.read(fd), expected_a, "A = frame 1 + both missed rects (full convergence)");
}

#[test]
fn dropped_frame_damage_is_accumulated() {
    let mut pool = Pool::new(4, 4);
    let full = fill_pattern(4, 4, 1);

    pool.push_damaged(4, 4, &[rect(0, 0, 4, 4)], |dst, effective| {
        for r in effective {
            write_rect(dst, r, 4, &full);
        }
    })
    .expect("frame N");

    let f2 = fill_pattern(4, 4, 2);
    pool.push_damaged(4, 4, &[rect(0, 0, 1, 1)], |dst, effective| {
        assert_eq!(effective, &[rect(0, 0, 4, 4)], "B's first write must be full-frame");
        for r in effective {
            write_rect(dst, r, 4, &f2);
        }
    })
    .expect("frame N+1");

    let f3 = fill_pattern(4, 4, 3);
    let dropped = pool.push_damaged(4, 4, &[rect(3, 3, 1, 1)], |_, _| {
        panic!("dropped frame must not write");
    });
    assert!(dropped.is_none(), "both buffers in flight: frame dropped");

    pool.cache.on_release();
    let fd = pool
        .push_damaged(4, 4, &[rect(0, 0, 1, 1)], |dst, effective| {
            assert_eq!(
                sorted(effective),
                sorted(&[rect(0, 0, 1, 1), rect(3, 3, 1, 1)]),
                "dropped frame's damage must be repainted"
            );
            for r in effective {
                write_rect(dst, r, 4, &f3);
            }
        })
        .expect("frame N+3");
    let mut expected_a = full.clone();
    write_rect(&mut expected_a, &rect(0, 0, 1, 1), 4, &f3);
    write_rect(&mut expected_a, &rect(3, 3, 1, 1), 4, &f3);
    assert_eq!(
        *pool.read(fd),
        expected_a,
        "dropped frame's rect applied on the next writable turn"
    );
}

#[test]
fn a_frame_of_another_size_is_not_pushed() {
    let mut pool = Pool::new(2, 2);
    assert!(pool.push(&[0; 15], 2, 2).is_none());
    assert_eq!(pool.cache.seq(), 0);
    assert!(pool.current_frame().is_none());
}

#[test]
fn a_target_that_could_not_grow_takes_no_frame() {
    let mut cache = FrameCache::new(2, 2);
    let mut small = vec![9u8; 8];
    assert!(cache.push(&[1; 16], 2, 2, &mut small, Some).is_none());
    assert!(cache.push_from(2, 2, &mut small, |_| panic!(), Some).is_none());
    assert!(cache.push_damaged(2, 2, &[], &mut small, |_, _| panic!(), Some).is_none());
    assert_eq!(small, vec![9u8; 8]);
    assert_eq!(cache.seq(), 0);
}

#[test]
fn without_a_descriptor_the_buffer_is_not_lent() {
    let mut cache = FrameCache::new(1, 1);
    let mut mem = vec![0u8; 4];
    assert!(cache.push_damaged(1, 1, &[], &mut mem, |_, _| {}, |_| None::<usize>).is_none());
    assert_eq!(cache.seq(), 1);
    assert_eq!(cache.push_damaged(1, 1, &[], &mut mem, |_, _| {}, Some), Some(1));
    // Buffer 0 was not lent, so it can be written again.
    assert_eq!(cache.push_damaged(1, 1, &[], &mut mem, |_, _| {}, Some), Some(0));
    assert_eq!(cache.push_damaged(1, 1, &[], &mut mem, |_, _| {}, Some), None);
    cache.reset_in_flight();
    assert_eq!(cache.push_damaged(1, 1, &[], &mut mem, |_, _| {}, Some), Some(1));
}

#[test]
fn marking_the_current_buffer_lends_it_once() {
    let mut cache = FrameCache::new(1, 1);
    let mut mem = vec![0u8; 4];
    assert_eq!(cache.push_from(1, 1, &mut mem, |_| {}, Some), Some(0));
    cache.mark_current_in_flight();
    cache.mark_current_in_flight();
    assert_eq!(cache.push_from(1, 1, &mut mem, |_| {}, Some), Some(1));
    assert_eq!(cache.push_damaged(1, 1, &[], &mut mem, |_, _| {}, Some), None);
    cache.on_release();
    assert_eq!(cache.push_damaged(1, 1, &[], &mut mem, |_, _| {}, Some), Some(0));
}

#[test]
fn a_failed_rebuild_changes_nothing() {
    let mut cache = FrameCache::new(1, 1);
    cache.set_dimensions(2, 2, false);
    assert!(!cache.size_differs(1, 1));
    cache.set_dimensions(2, 2, true);
    assert!(!cache.size_differs(2, 2));
}

#[test]
fn rectangles_merge_over_edges_and_not_over_corners() {
    let a = rect(0, 0, 2, 2);
    assert!(a.mergeable(&rect(1, 1, 2, 2)));
    assert!(a.mergeable(&rect(2, 0, 2, 2)));
    assert!(a.mergeable(&rect(0, 2, 1, 1)));
    assert!(!a.mergeable(&rect(2, 2, 1, 1)));
    assert!(!a.mergeable(&rect(3, 0, 1, 1)));
    assert_eq!(a.merged(&rect(2, 1, 3, 4)), rect(0, 0, 5, 5));
    assert!(a.contains(&rect(1, 1, 1, 1)));
    assert!(!a.contains(&rect(1, 1, 2, 1)));
    assert_eq!(Rect::full(7, 5), rect(0, 0, 7, 5));
}

#[test]
fn only_the_rectangles_are_copied() {
    let src = fill_pattern(4, 4, 50);
    let mut dst = frame_data(4, 4, 0);
    copy_rects(&mut dst, &[rect(1, 1, 2, 1), rect(3, 3, 1, 1)], 4, 4, &src);
    let mut expected = frame_data(4, 4, 0);
    write_rect(&mut expected, &rect(1, 1, 2, 1), 4, &src);
    write_rect(&mut expected, &rect(3, 3, 1, 1), 4, &src);
    assert_eq!(dst, expected);
}

#[test]
fn damage_is_clamped_to_the_frame() {
    assert_eq!(rect(3, 1, 9, 1).clamped(4, 4), rect(3, 1, 1, 1));
    assert_eq!(rect(9, 9, 1, 1).clamped(4, 4), rect(4, 4, 0, 0));
    let mut cache = FrameCache::new(4, 4);
    let mut mem = vec![0u8; 64];
    for _ in 0..2 {
        cache.push_damaged(4, 4, &[rect(0, 0, 4, 4)], &mut mem, |_, _| {}, Some);
        cache.on_release();
    }
    cache.push_damaged(
        4,
        4,
        &[rect(2, 3, 50, 50)],
        &mut mem,
        |_, effective| assert!(effective.iter().all(|r| r.x + r.w <= 4 && r.y + r.h <= 4)),
        Some,
    );
}

#[test]
fn repainting_by_damage_shows_the_latest_frame() {
    let mut pool = Pool::new(4, 4);
    let mut latest = fill_pattern(4, 4, 1);
    let changes = [rect(0, 0, 4, 4), rect(1, 0, 2, 1), rect(3, 3, 1, 1), rect(0, 2, 2, 2)];
    for (n, r) in changes.iter().enumerate() {
        let fresh = frame_data(4, 4, n as u8);
        write_rect(&mut latest, r, 4, &fresh);
        let shown = latest.clone();
        let fd = pool
            .push_damaged(4, 4, &[*r], |dst, effective| copy_rects(dst, effective, 4, 4, &shown))
            .unwrap();
        assert_eq!(*pool.read(fd), latest);
        pool.cache.on_release();
    }
}

#[test]
fn sizes() {
    assert_eq!(frame_bytes(3392, 2400), 32_563_200);
    assert_eq!(ensure_size(10, 10), None);
    assert_eq!(ensure_size(10, 11), Some(11));
    let mut dst = [1u8, 2, 3];
    copy_front(&mut dst, &[9, 8]);
    assert_eq!(dst, [9, 8, 3]);
}
