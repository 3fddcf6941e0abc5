//! Copying damage between frames, and why it is enough.
//!
//! A frame is rows of four-byte pixels without padding.

use vstd::prelude::*;
use crate::frame_cache::Rect;

verus! {

/// The column of the pixel that byte `b` belongs to.
pub open spec fn column(b: int, width: int) -> int {
    (b / 4) % width
}

/// The row of the pixel that byte `b` belongs to.
pub open spec fn row(b: int, width: int) -> int {
    (b / 4) / width
}

/// The byte belongs to a pixel of the list.
pub open spec fn touched(rects: Seq<Rect>, b: int, width: int) -> bool {
    crate::frame_cache::covered(rects, column(b, width), row(b, width))
}

/// `dst` with the pixels of the list taken from `src`.
pub open spec fn painted(dst: Seq<u8>, rects: Seq<Rect>, src: Seq<u8>, width: int) -> Seq<u8> {
    Seq::new(
        dst.len(),
        |b: int|
            if touched(rects, b, width) {
                src[b]
            } else {
                dst[b]
            },
    )
}

/// The rectangle lies within the frame.
pub open spec fn inside(r: Rect, width: u32, height: u32) -> bool {
    r.x + r.w <= width && r.y + r.h <= height
}

proof fn lemma_place(b: int, width: int, y: int, x: int, w: int)
    requires
        0 <= b,
        0 < width,
        0 <= y,
        0 <= x,
        0 <= w,
        x + w <= width,
    ensures
        (4 * (y * width + x) <= b < 4 * (y * width + x + w)) <==> (row(b, width) == y && x
            <= column(b, width) < x + w),
{
    let q = b / 4;
    vstd::arithmetic::div_mod::lemma_fundamental_div_mod(q, width);
    assert(width * (q / width) == (q / width) * width) by (nonlinear_arith);
    if y * width + x <= q < y * width + x + w {
        assert(width * y == y * width) by (nonlinear_arith);
        vstd::arithmetic::div_mod::lemma_fundamental_div_mod_converse(
            q,
            width,
            y,
            q - y * width,
        );
    }
}

proof fn lemma_row_bound(b: int, width: int, height: int)
    requires
        0 <= b < width * height * 4,
        0 <= width,
        0 <= height,
    ensures
        0 < width,
        0 <= column(b, width) < width,
        0 <= row(b, width) < height,
{
    let q = b / 4;
    assert(0 < width) by (nonlinear_arith)
        requires
            0 <= b < width * height * 4,
            0 <= width,
            0 <= height,
    ;
    assert(q < width * height);
    vstd::arithmetic::div_mod::lemma_fundamental_div_mod(q, width);
    assert(0 <= q / width < height) by (nonlinear_arith)
        requires
            0 < width,
            0 <= q < width * height,
            q == width * (q / width) + q % width,
            0 <= q % width < width,
    ;
}

/// Copies the pixels of one rectangle.
fn copy_rect(dst: &mut [u8], rect: &Rect, width: u32, height: u32, src: &[u8])
    requires
        inside(*rect, width, height),
        src@.len() == crate::frame_cache::frame_len(width, height),
        old(dst)@.len() == src@.len(),
    ensures
        final(dst)@ == painted(old(dst)@, seq![*rect], src@, width as int),
{
    let len: usize = src.len();
    let ghost before = dst@;
    let ghost w = width as int;
    let end: u32 = rect.y + rect.h;
    let mut y: u32 = rect.y;
    if rect.w > 0 {
        while y < end
            invariant
                rect.y <= y <= end,
                end == rect.y + rect.h,
                rect.w > 0,
                w == width,
                inside(*rect, width, height),
                len == src@.len(),
                len == crate::frame_cache::frame_len(width, height),
                dst@.len() == len,
                before.len() == len,
                forall|b: int|
                    0 <= b < len ==> #[trigger] dst@[b] == (if rect.has(column(b, w), row(b, w))
                        && row(b, w) < y {
                        src@[b]
                    } else {
                        before[b]
                    }),
            decreases end - y,
        {
            let ghost start = 4 * (y * w + rect.x);
            let ghost mid = dst@;
            assert(4 * (y * w + rect.x + rect.w) <= len) by (nonlinear_arith)
                requires
                    y + 1 <= height,
                    rect.x + rect.w <= w,
                    len == w * height * 4,
                    w == width,
            ;
            assert(0 <= y * w) by (nonlinear_arith)
                requires
                    0 <= w,
            ;
            let first: usize = (y as usize * width as usize + rect.x as usize) * 4;
            let count: usize = rect.w as usize * 4;
            let mut i: usize = 0;
            while i < count
                invariant
                    i <= count,
                    first == start,
                    first + count <= len,
                    len == src@.len(),
                    dst@.len() == len,
                    mid.len() == len,
                    forall|b: int|
                        0 <= b < len ==> #[trigger] dst@[b] == (if first <= b < first + i {
                            src@[b]
                        } else {
                            mid[b]
                        }),
                decreases count - i,
            {
                dst[first + i] = src[first + i];
                i += 1;
            }
            proof {
                assert forall|b: int| 0 <= b < len implies #[trigger] dst@[b] == (if rect.has(
                    column(b, w),
                    row(b, w),
                ) && row(b, w) < y + 1 {
                    src@[b]
                } else {
                    before[b]
                }) by {
                    lemma_place(b, w, y as int, rect.x as int, rect.w as int);
                    assert(mid[b] == mid[b]);
                }
            }
            y += 1;
        }
    }
    proof {
        let out = painted(before, seq![*rect], src@, w);
        assert forall|b: int| 0 <= b < len implies #[trigger] dst@[b] == out[b] by {
            lemma_row_bound(b, w, height as int);
            let one = seq![*rect];
            if rect.has(column(b, w), row(b, w)) {
                assert(one[0].has(column(b, w), row(b, w)));
            }
        }
        assert(dst@ =~= out);
    }
}

/// Copies the pixels of every rectangle of the list out of `src`.
pub fn copy_rects(dst: &mut [u8], rects: &[Rect], width: u32, height: u32, src: &[u8])
    requires
        forall|i: int| 0 <= i < rects@.len() ==> inside(#[trigger] rects@[i], width, height),
        src@.len() == crate::frame_cache::frame_len(width, height),
        old(dst)@.len() == src@.len(),
    ensures
        final(dst)@ == painted(old(dst)@, rects@, src@, width as int),
{
    let ghost before = dst@;
    let ghost w = width as int;
    let mut i: usize = 0;
    assert(dst@ =~= painted(before, rects@.take(0), src@, w));
    while i < rects.len()
        invariant
            i <= rects@.len(),
            w == width,
            forall|k: int| 0 <= k < rects@.len() ==> inside(#[trigger] rects@[k], width, height),
            src@.len() == crate::frame_cache::frame_len(width, height),
            dst@.len() == src@.len(),
            before.len() == src@.len(),
            dst@ == painted(before, rects@.take(i as int), src@, w),
        decreases rects@.len() - i,
    {
        copy_rect(dst, &rects[i], width, height, src);
        proof {
            let done = rects@.take(i as int);
            let one = seq![rects@[i as int]];
            let next = rects@.take(i + 1);
            assert forall|b: int| 0 <= b < before.len() implies touched(next, b, w) == (touched(
                done,
                b,
                w,
            ) || touched(one, b, w)) by {
                let x = column(b, w);
                let y = row(b, w);
                if touched(done, b, w) {
                    let k = choose|k: int| 0 <= k < done.len() && (#[trigger] done[k]).has(x, y);
                    assert(next[k].has(x, y));
                }
                if touched(one, b, w) {
                    assert(one[0].has(x, y));
                    assert(next[i as int].has(x, y));
                }
                if touched(next, b, w) {
                    let k = choose|k: int| 0 <= k < next.len() && (#[trigger] next[k]).has(x, y);
                    if k < i {
                        assert(done[k].has(x, y));
                    } else {
                        assert(one[0].has(x, y));
                    }
                }
            }
            assert(dst@ =~= painted(before, next, src@, w));
        }
        i += 1;
    }
    assert(rects@.take(i as int) =~= rects@);
}

/// The buffers are in step with `frame`: wherever a buffer that was written
/// shows something else, the pixel is on its list.
pub open spec fn in_step(
    s: crate::frame_cache::CacheState,
    mems: Seq<Seq<u8>>,
    frame: Seq<u8>,
) -> bool {
    &&& frame.len() == crate::frame_cache::frame_len(s.width, s.height)
    &&& mems.len() == crate::frame_cache::BUFFERS
    &&& forall|i: int|
        #![trigger s.valid[i]]
        0 <= i < mems.len() && s.valid[i] ==> shows(mems[i], s.pending[i], frame, s.width as int)
}

/// Outside the list, `mem` starts with `frame`.
pub open spec fn shows(mem: Seq<u8>, list: Seq<Rect>, frame: Seq<u8>, width: int) -> bool {
    &&& frame.len() <= mem.len()
    &&& forall|b: int|
        0 <= b < frame.len() ==> #[trigger] mem[b] == frame[b] || touched(list, b, width)
}

/// The frames agree outside the list.
pub open spec fn agree(a: Seq<u8>, b: Seq<u8>, rects: Seq<Rect>, width: int) -> bool {
    &&& a.len() == b.len()
    &&& forall|k: int| 0 <= k < a.len() ==> #[trigger] a[k] == b[k] || touched(rects, k, width)
}

/// A commit whose damage covers every change keeps the buffers in step, also
/// when the frame is dropped.
pub proof fn lemma_damage_is_recorded(
    s: crate::frame_cache::CacheState,
    mems: Seq<Seq<u8>>,
    frame: Seq<u8>,
    fresh: Seq<u8>,
    rects: Seq<Rect>,
)
    requires
        s.wf(),
        in_step(s, mems, frame),
        crate::frame_cache::all_fit(rects),
        agree(frame, fresh, rects, s.width as int),
    ensures
        in_step(s.damaged(rects), mems, fresh),
{
    let t = s.damaged(rects);
    let w = s.width as int;
    assert forall|i: int|
        #![trigger t.valid[i]]
        0 <= i < mems.len() && t.valid[i] implies shows(mems[i], t.pending[i], fresh, w) by {
        assert(s.valid[i]);
        crate::frame_cache::lemma_united_all_covers(s.pending[i], rects);
        assert forall|b: int| 0 <= b < fresh.len() implies #[trigger] mems[i][b] == fresh[b]
            || touched(t.pending[i], b, w) by {
            if !touched(t.pending[i], b, w) {
                let x = column(b, w);
                let y = row(b, w);
                assert(!crate::frame_cache::covered(
                    crate::frame_cache::united_all(s.pending[i], rects),
                    x,
                    y,
                ));
                assert(!touched(s.pending[i], b, w) && !touched(rects, b, w));
                assert(frame[b] == fresh[b]);
            }
        }
    }
}

/// The whole-frame rectangle touches every byte of the frame.
proof fn lemma_full_touches(width: u32, height: u32, b: int)
    requires
        0 <= b < crate::frame_cache::frame_len(width, height),
    ensures
        touched(seq![Rect { x: 0, y: 0, w: width, h: height }], b, width as int),
{
    lemma_row_bound(b, width as int, height as int);
    let full = seq![Rect { x: 0, y: 0, w: width, h: height }];
    assert(full[0].has(column(b, width as int), row(b, width as int)));
}

/// Clamping a list to the frame leaves nothing of the frame out.
proof fn lemma_clamping_keeps(list: Seq<Rect>, width: u32, height: u32, b: int)
    requires
        0 <= b < crate::frame_cache::frame_len(width, height),
        touched(list, b, width as int),
    ensures
        touched(
            Seq::new(list.len(), |i: int| list[i].within(width, height)),
            b,
            width as int,
        ),
{
    lemma_row_bound(b, width as int, height as int);
    let x = column(b, width as int);
    let y = row(b, width as int);
    let cut = Seq::new(list.len(), |i: int| list[i].within(width, height));
    let k = choose|k: int| 0 <= k < list.len() && (#[trigger] list[k]).has(x, y);
    assert(cut[k].has(x, y));
}

/// Copying what the target's list asks for makes the target show exactly the
/// fresh frame, and the buffers stay in step with it.
pub proof fn lemma_repaint_converges(
    s: crate::frame_cache::CacheState,
    mems: Seq<Seq<u8>>,
    fresh: Seq<u8>,
)
    requires
        s.wf(),
        in_step(s, mems, fresh),
        fresh.len() <= mems[s.next as int].len(),
    ensures
        ({
            let n = fresh.len() as int;
            let mem = mems[s.next as int];
            let out = painted(mem.take(n), s.effective(s.width, s.height), fresh, s.width as int);
            &&& out == fresh
            &&& in_step(
                s.repainted().rotated(),
                mems.update(s.next as int, out + mem.skip(n)),
                fresh,
            )
        }),
{
    let n = fresh.len() as int;
    let w = s.width as int;
    let at = s.next as int;
    let mem = mems[at];
    let out = painted(mem.take(n), s.effective(s.width, s.height), fresh, w);
    assert forall|b: int| 0 <= b < n implies #[trigger] out[b] == fresh[b] by {
        if s.valid[at] {
            assert(mem[b] == fresh[b] || touched(s.pending[at], b, w));
        } else {
            lemma_full_touches(s.width, s.height, b);
        }
        if touched(s.missing(), b, w) {
            lemma_clamping_keeps(s.missing(), s.width, s.height, b);
            assert(s.effective(s.width, s.height) =~= Seq::new(
                s.missing().len(),
                |i: int| s.missing()[i].within(s.width, s.height),
            ));
        }
    }
    assert(out =~= fresh);
    let t = s.repainted().rotated();
    let now = mems.update(at, out + mem.skip(n));
    assert forall|i: int|
        #![trigger t.valid[i]]
        0 <= i < now.len() && t.valid[i] implies shows(now[i], t.pending[i], fresh, w) by {
        if i == at {
            assert forall|b: int| 0 <= b < fresh.len() implies #[trigger] now[i][b] == fresh[b]
                || touched(t.pending[i], b, w) by {
                assert(now[i][b] == out[b]);
            }
        } else {
            assert(s.valid[i]);
            assert(t.pending[i] == s.pending[i]);
        }
    }
}

/// After a whole frame was written into the target the buffers are in step with
/// it, whatever they showed before.
pub proof fn lemma_overwrite_converges(
    s: crate::frame_cache::CacheState,
    mems: Seq<Seq<u8>>,
    fresh: Seq<u8>,
)
    requires
        s.wf(),
        mems.len() == crate::frame_cache::BUFFERS,
        fresh.len() == crate::frame_cache::frame_len(s.width, s.height),
        forall|i: int|
            #![trigger mems[i]]
            0 <= i < mems.len() && (s.valid[i] || i == s.next) ==> fresh.len() <= mems[i].len(),
    ensures
        in_step(
            s.overwritten().rotated(),
            mems.update(
                s.next as int,
                fresh + mems[s.next as int].skip(fresh.len() as int),
            ),
            fresh,
        ),
{
    let w = s.width as int;
    let at = s.next as int;
    let full = Rect { x: 0, y: 0, w: s.width, h: s.height };
    let t = s.overwritten().rotated();
    let now = mems.update(at, fresh + mems[at].skip(fresh.len() as int));
    assert forall|i: int|
        #![trigger t.valid[i]]
        0 <= i < now.len() && t.valid[i] implies shows(now[i], t.pending[i], fresh, w) by {
        if i == at {
            assert forall|b: int| 0 <= b < fresh.len() implies #[trigger] now[i][b] == fresh[b]
                || touched(t.pending[i], b, w) by {
            }
        } else {
            assert(s.valid[i]);
            assert(now[i] == mems[i]);
            assert(crate::frame_cache::all_fit(s.pending[i]));
            crate::frame_cache::lemma_united_covers(s.pending[i], full);
            assert forall|b: int| 0 <= b < fresh.len() implies #[trigger] now[i][b] == fresh[b]
                || touched(t.pending[i], b, w) by {
                lemma_row_bound(b, w, s.height as int);
                assert(full.has(column(b, w), row(b, w)));
                assert(crate::frame_cache::covered(
                    crate::frame_cache::united(s.pending[i], full),
                    column(b, w),
                    row(b, w),
                ));
            }
        }
    }
}

/// What a damaged push owes the App: as long as each commit reports all that it
/// changed, the buffer that goes out shows the committed frame, and the other
/// buffer is short of it by no more than its list says.
pub proof fn lemma_push_damaged_shows_frame(
    s: crate::frame_cache::CacheState,
    mems: Seq<Seq<u8>>,
    frame: Seq<u8>,
    fresh: Seq<u8>,
    rects: Seq<Rect>,
)
    requires
        s.wf(),
        in_step(s, mems, frame),
        crate::frame_cache::all_fit(rects),
        agree(frame, fresh, rects, s.width as int),
        fresh.len() <= mems[s.next as int].len(),
    ensures
        ({
            let t = s.damaged(rects);
            let n = fresh.len() as int;
            let mem = mems[s.next as int];
            let out = painted(mem.take(n), t.effective(s.width, s.height), fresh, s.width as int);
            &&& out == fresh
            &&& in_step(
                t.repainted().rotated(),
                mems.update(s.next as int, out + mem.skip(n)),
                fresh,
            )
        }),
{
    lemma_damage_is_recorded(s, mems, frame, fresh, rects);
    let t = s.damaged(rects);
    assert forall|i: int| 0 <= i < crate::frame_cache::BUFFERS implies crate::frame_cache::all_fit(
        #[trigger] t.pending[i],
    ) by {
        assert(crate::frame_cache::all_fit(s.pending[i]));
        crate::frame_cache::lemma_united_all_covers(s.pending[i], rects);
    }
    lemma_repaint_converges(t, mems, fresh);
}

pub open spec fn all_inside(list: Seq<Rect>, width: u32, height: u32) -> bool {
    forall|i: int| 0 <= i < list.len() ==> inside(#[trigger] list[i], width, height)
}

/// What has to be copied always lies within the frame, whatever damage was
/// reported.
pub proof fn lemma_effective_inside(s: crate::frame_cache::CacheState, width: u32, height: u32)
    requires
        s.wf(),
    ensures
        all_inside(s.effective(width, height), width, height),
{
    let list = s.missing();
    let out = s.effective(width, height);
    assert forall|i: int| 0 <= i < out.len() implies inside(#[trigger] out[i], width, height) by {
        if s.valid[s.next as int] {
            assert(crate::frame_cache::all_fit(s.pending[s.next as int]));
        }
        assert(list[i].fits());
    }
}

/// Pixels stand row by row, four bytes each.
pub proof fn lemma_bytes_of_pixels(b: int, width: int)
    requires
        b >= 0,
        width > 0,
    ensures
        0 <= column(b, width) < width,
        row(b, width) >= 0,
        b == 4 * (row(b, width) * width + column(b, width)) + b % 4,
{
    let q = b / 4;
    vstd::arithmetic::div_mod::lemma_fundamental_div_mod(q, width);
    assert(q / width >= 0) by (nonlinear_arith)
        requires
            q >= 0,
            width > 0,
    ;
    assert(width * (q / width) == (q / width) * width) by (nonlinear_arith);
}

/// Painting takes the pixels of the list from the source, and no others.
pub proof fn lemma_painted_takes_the_list(
    dst: Seq<u8>,
    rects: Seq<Rect>,
    src: Seq<u8>,
    width: int,
    b: int,
)
    requires
        0 <= b < dst.len(),
    ensures
        painted(dst, rects, src, width).len() == dst.len(),
        crate::frame_cache::covered(rects, (b / 4) % width, (b / 4) / width) ==> painted(
            dst,
            rects,
            src,
            width,
        )[b] == src[b],
        !crate::frame_cache::covered(rects, (b / 4) % width, (b / 4) / width) ==> painted(
            dst,
            rects,
            src,
            width,
        )[b] == dst[b],
{
}

} // verus!
