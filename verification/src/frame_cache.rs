//! Two frame buffers that alternate, repainted by damage.
//!
//! Every commit adds its damage to the list of both buffers. A buffer that is
//! written copies its own list out of the fresh frame: what it left untouched
//! is current there already. A buffer that the App holds is not written; the
//! frame is dropped and its damage stays on the lists.
//!
//! The memory of the buffers belongs to the caller, who hands in the mapping of
//! the target buffer, a writer and a way to hand out a descriptor.

use std::collections::VecDeque;
use vstd::prelude::*;

verus! {

/// How many buffers alternate.
pub const BUFFERS: usize = 2;

/// A rectangle in pixels.
#[derive(Debug, Clone, Copy, PartialEq, Eq, Structural)]
pub struct Rect {
    pub x: u32,
    pub y: u32,
    pub w: u32,
    pub h: u32,
}

impl Rect {
    /// The far corner can be represented.
    pub open spec fn fits(self) -> bool {
        self.x + self.w <= u32::MAX && self.y + self.h <= u32::MAX
    }

    /// The pixel lies in the rectangle.
    pub open spec fn has(self, x: int, y: int) -> bool {
        self.x <= x < self.x + self.w && self.y <= y < self.y + self.h
    }

    /// Every edge of `other` lies within this rectangle.
    pub open spec fn encloses(self, other: Rect) -> bool {
        &&& self.x <= other.x
        &&& self.y <= other.y
        &&& other.x + other.w <= self.x + self.w
        &&& other.y + other.h <= self.y + self.h
    }

    /// The two share an area or a stretch of an edge. Rectangles that meet in a
    /// corner only do not.
    pub open spec fn joins(self, other: Rect) -> bool {
        let over_x = self.x < other.x + other.w && other.x < self.x + self.w;
        let over_y = self.y < other.y + other.h && other.y < self.y + self.h;
        let meet_x = self.x <= other.x + other.w && other.x <= self.x + self.w;
        let meet_y = self.y <= other.y + other.h && other.y <= self.y + self.h;
        (over_x && meet_y) || (meet_x && over_y)
    }

    /// The smallest rectangle around both.
    pub open spec fn bound(self, other: Rect) -> Rect {
        let x1 = if self.x <= other.x { self.x as int } else { other.x as int };
        let y1 = if self.y <= other.y { self.y as int } else { other.y as int };
        let x2 = if self.x + self.w >= other.x + other.w { self.x + self.w } else { other.x + other.w };
        let y2 = if self.y + self.h >= other.y + other.h { self.y + self.h } else { other.y + other.h };
        Rect { x: x1 as u32, y: y1 as u32, w: (x2 - x1) as u32, h: (y2 - y1) as u32 }
    }

    /// The part within a frame of that size.
    pub open spec fn within(self, width: u32, height: u32) -> Rect {
        let x1 = if self.x <= width { self.x as int } else { width as int };
        let y1 = if self.y <= height { self.y as int } else { height as int };
        let x2 = if self.x + self.w <= width { self.x + self.w } else { width as int };
        let y2 = if self.y + self.h <= height { self.y + self.h } else { height as int };
        Rect { x: x1 as u32, y: y1 as u32, w: (x2 - x1) as u32, h: (y2 - y1) as u32 }
    }

    pub fn full(w: u32, h: u32) -> (r: Self)
        ensures
            r == (Rect { x: 0, y: 0, w, h }),
    {
        Rect { x: 0, y: 0, w, h }
    }

    pub fn contains(&self, other: &Rect) -> (r: bool)
        requires
            self.fits(),
            other.fits(),
        ensures
            r == self.encloses(*other),
    {
        other.x >= self.x && other.y >= self.y && other.x + other.w <= self.x + self.w && other.y
            + other.h <= self.y + self.h
    }

    /// Whether the two are merged into one: they overlap or are adjacent.
    pub fn mergeable(&self, other: &Rect) -> (r: bool)
        requires
            self.fits(),
            other.fits(),
        ensures
            r == self.joins(*other),
    {
        let over_x: bool = self.x < other.x + other.w && other.x < self.x + self.w;
        let over_y: bool = self.y < other.y + other.h && other.y < self.y + self.h;
        let meet_x: bool = self.x <= other.x + other.w && other.x <= self.x + self.w;
        let meet_y: bool = self.y <= other.y + other.h && other.y <= self.y + self.h;
        (over_x && meet_y) || (meet_x && over_y)
    }

    pub fn merged(&self, other: &Rect) -> (r: Rect)
        requires
            self.fits(),
            other.fits(),
        ensures
            r == self.bound(*other),
            r.fits(),
    {
        let x1: u32 = if self.x <= other.x {
            self.x
        } else {
            other.x
        };
        let y1: u32 = if self.y <= other.y {
            self.y
        } else {
            other.y
        };
        let x2: u32 = if self.x + self.w >= other.x + other.w {
            self.x + self.w
        } else {
            other.x + other.w
        };
        let y2: u32 = if self.y + self.h >= other.y + other.h {
            self.y + self.h
        } else {
            other.y + other.h
        };
        Rect { x: x1, y: y1, w: x2 - x1, h: y2 - y1 }
    }

    /// Cuts off what lies outside a frame.
    pub fn clamped(&self, width: u32, height: u32) -> (r: Rect)
        requires
            self.fits(),
        ensures
            r == self.within(width, height),
            r.x + r.w <= width,
            r.y + r.h <= height,
    {
        let x1: u32 = if self.x <= width {
            self.x
        } else {
            width
        };
        let y1: u32 = if self.y <= height {
            self.y
        } else {
            height
        };
        let x2: u32 = if self.x + self.w <= width {
            self.x + self.w
        } else {
            width
        };
        let y2: u32 = if self.y + self.h <= height {
            self.y + self.h
        } else {
            height
        };
        Rect { x: x1, y: y1, w: x2 - x1, h: y2 - y1 }
    }
}

pub open spec fn all_fit(list: Seq<Rect>) -> bool {
    forall|i: int| 0 <= i < list.len() ==> (#[trigger] list[i]).fits()
}

/// Some rectangle of the list has the pixel.
pub open spec fn covered(list: Seq<Rect>, x: int, y: int) -> bool {
    exists|i: int| 0 <= i < list.len() && (#[trigger] list[i]).has(x, y)
}

/// The list with `r`: dropped where one rectangle encloses it, merged into the
/// first that it joins, else added at the end.
pub open spec fn united(list: Seq<Rect>, r: Rect) -> Seq<Rect>
    decreases list.len(),
{
    if list.len() == 0 {
        seq![r]
    } else if list[0].encloses(r) {
        list
    } else if list[0].joins(r) {
        list.update(0, list[0].bound(r))
    } else {
        seq![list[0]] + united(list.drop_first(), r)
    }
}

/// The list with all of `rects`, one after the other.
pub open spec fn united_all(list: Seq<Rect>, rects: Seq<Rect>) -> Seq<Rect>
    decreases rects.len(),
{
    if rects.len() == 0 {
        list
    } else {
        united(united_all(list, rects.drop_last()), rects.last())
    }
}

/// Adding a rectangle keeps what the list covers and covers the rectangle.
pub proof fn lemma_united_covers(list: Seq<Rect>, r: Rect)
    requires
        all_fit(list),
        r.fits(),
    ensures
        all_fit(united(list, r)),
        forall|x: int, y: int|
            covered(list, x, y) || r.has(x, y) ==> #[trigger] covered(united(list, r), x, y),
    decreases list.len(),
{
    let out = united(list, r);
    if list.len() == 0 {
        assert forall|x: int, y: int| covered(list, x, y) || r.has(x, y) implies #[trigger] covered(
            out,
            x,
            y,
        ) by {
            assert(out[0].has(x, y));
        }
    } else if list[0].encloses(r) {
        assert forall|x: int, y: int| covered(list, x, y) || r.has(x, y) implies #[trigger] covered(
            out,
            x,
            y,
        ) by {
            if r.has(x, y) {
                assert(out[0].has(x, y));
            }
        }
    } else if list[0].joins(r) {
        assert forall|x: int, y: int| covered(list, x, y) || r.has(x, y) implies #[trigger] covered(
            out,
            x,
            y,
        ) by {
            if r.has(x, y) {
                assert(out[0].has(x, y));
            } else {
                let i = choose|i: int| 0 <= i < list.len() && (#[trigger] list[i]).has(x, y);
                assert(out[i].has(x, y));
            }
        }
    } else {
        let tail = list.drop_first();
        let rest = united(tail, r);
        lemma_united_covers(tail, r);
        assert forall|i: int| 0 <= i < out.len() implies (#[trigger] out[i]).fits() by {
            if i > 0 {
                assert(out[i] == rest[i - 1]);
            }
        }
        assert forall|x: int, y: int| covered(list, x, y) || r.has(x, y) implies #[trigger] covered(
            out,
            x,
            y,
        ) by {
            if list[0].has(x, y) {
                assert(out[0].has(x, y));
            } else {
                if covered(list, x, y) {
                    let i = choose|i: int| 0 <= i < list.len() && (#[trigger] list[i]).has(x, y);
                    assert(tail[i - 1].has(x, y));
                }
                assert(covered(rest, x, y));
                let i = choose|i: int| 0 <= i < rest.len() && (#[trigger] rest[i]).has(x, y);
                assert(out[i + 1].has(x, y));
            }
        }
    }
}

/// Adding rectangles keeps what the list covers and covers each of them.
pub proof fn lemma_united_all_covers(list: Seq<Rect>, rects: Seq<Rect>)
    requires
        all_fit(list),
        all_fit(rects),
    ensures
        all_fit(united_all(list, rects)),
        forall|x: int, y: int|
            covered(list, x, y) || covered(rects, x, y) ==> #[trigger] covered(
                united_all(list, rects),
                x,
                y,
            ),
    decreases rects.len(),
{
    if rects.len() > 0 {
        let front = rects.drop_last();
        lemma_united_all_covers(list, front);
        lemma_united_covers(united_all(list, front), rects.last());
        let out = united_all(list, rects);
        assert forall|x: int, y: int|
            covered(list, x, y) || covered(rects, x, y) implies #[trigger] covered(out, x, y) by {
            if covered(rects, x, y) && !rects.last().has(x, y) {
                let i = choose|i: int| 0 <= i < rects.len() && (#[trigger] rects[i]).has(x, y);
                assert(front[i].has(x, y));
            }
            if !rects.last().has(x, y) {
                assert(covered(united_all(list, front), x, y));
            }
        }
    }
}

/// While no rectangle so far takes `r` in, the answer lies in the rest.
proof fn lemma_united_skip(list: Seq<Rect>, r: Rect, n: int)
    requires
        0 <= n <= list.len(),
        forall|k: int|
            0 <= k < n ==> !(#[trigger] list[k]).encloses(r) && !list[k].joins(r),
    ensures
        united(list, r) == list.take(n) + united(list.skip(n), r),
    decreases n,
{
    if n == 0 {
        assert(list.take(0) + united(list.skip(0), r) =~= united(list, r)) by {
            assert(list.skip(0) =~= list);
        }
    } else {
        let tail = list.drop_first();
        assert forall|k: int| 0 <= k < n - 1 implies !(#[trigger] tail[k]).encloses(r)
            && !tail[k].joins(r) by {
            assert(tail[k] == list[k + 1]);
        }
        lemma_united_skip(tail, r, n - 1);
        assert(tail.skip(n - 1) =~= list.skip(n));
        assert(!list[0].encloses(r) && !list[0].joins(r));
        assert(seq![list[0]] + (tail.take(n - 1) + united(list.skip(n), r)) =~= list.take(n)
            + united(list.skip(n), r));
    }
}

/// What a cache remembers, as mathematics.
#[verifier::ext_equal]
pub struct CacheState {
    /// The buffer that the next frame goes to.
    pub next: usize,
    /// The buffer that was written last.
    pub current: usize,
    /// How many frames were written.
    pub seq: u64,
    pub width: u32,
    pub height: u32,
    /// Per buffer, what changed since it was written.
    pub pending: Seq<Seq<Rect>>,
    /// Per buffer, whether it was written since the pool was built.
    pub valid: Seq<bool>,
    /// The buffers that the App holds, oldest first.
    pub in_flight: Seq<usize>,
}

impl CacheState {
    pub open spec fn wf(self) -> bool {
        &&& self.next < BUFFERS
        &&& self.current < BUFFERS
        &&& self.pending.len() == BUFFERS
        &&& self.valid.len() == BUFFERS
        &&& forall|i: int| 0 <= i < BUFFERS ==> all_fit(#[trigger] self.pending[i])
        &&& forall|k: int| 0 <= k < self.in_flight.len() ==> (#[trigger] self.in_flight[k]) < BUFFERS
        &&& self.in_flight.no_duplicates()
    }

    /// Damage goes on every list.
    pub open spec fn damaged(self, rects: Seq<Rect>) -> CacheState {
        CacheState {
            pending: Seq::new(self.pending.len(), |i: int| united_all(self.pending[i], rects)),
            ..self
        }
    }

    /// What the target is short of: its list, or everything where it was never
    /// written.
    pub open spec fn missing(self) -> Seq<Rect> {
        if self.valid[self.next as int] {
            self.pending[self.next as int]
        } else {
            seq![Rect { x: 0, y: 0, w: self.width, h: self.height }]
        }
    }

    /// What the target has to copy out of a fresh frame of that size.
    pub open spec fn effective(self, width: u32, height: u32) -> Seq<Rect> {
        Seq::new(self.missing().len(), |i: int| self.missing()[i].within(width, height))
    }

    /// The target is up to date.
    pub open spec fn repainted(self) -> CacheState {
        CacheState {
            pending: self.pending.update(self.next as int, seq![]),
            valid: self.valid.update(self.next as int, true),
            ..self
        }
    }

    /// The target holds a whole frame that the other buffers know nothing of.
    pub open spec fn overwritten(self) -> CacheState {
        let full = Rect { x: 0, y: 0, w: self.width, h: self.height };
        CacheState {
            pending: Seq::new(
                self.pending.len(),
                |i: int|
                    if i == self.next {
                        seq![]
                    } else {
                        united(self.pending[i], full)
                    },
            ),
            valid: self.valid.update(self.next as int, true),
            ..self
        }
    }

    /// The written target becomes the current buffer.
    pub open spec fn rotated(self) -> CacheState {
        CacheState {
            current: self.next,
            next: ((self.next + 1) % BUFFERS as int) as usize,
            seq: (self.seq + 1) as u64,
            ..self
        }
    }

    /// The App holds the current buffer.
    pub open spec fn lent(self) -> CacheState {
        CacheState { in_flight: self.in_flight.push(self.current), ..self }
    }
}

pub struct FrameCache {
    next: usize,
    current: usize,
    seq: u64,
    width: u32,
    height: u32,
    pending: Vec<Vec<Rect>>,
    valid: Vec<bool>,
    in_flight: VecDeque<usize>,
}

impl View for FrameCache {
    type V = CacheState;

    closed spec fn view(&self) -> CacheState {
        CacheState {
            next: self.next,
            current: self.current,
            seq: self.seq,
            width: self.width,
            height: self.height,
            pending: Seq::new(self.pending@.len(), |i: int| self.pending@[i]@),
            valid: self.valid@,
            in_flight: self.in_flight@,
        }
    }
}

/// The bytes of one frame.
pub open spec fn frame_len(width: u32, height: u32) -> int {
    width * height * 4
}

pub fn frame_bytes(width: u32, height: u32) -> (r: usize)
    requires
        frame_len(width, height) <= usize::MAX,
    ensures
        r == frame_len(width, height),
{
    let ghost area = width * height;
    assert(0 <= area <= area * 4) by (nonlinear_arith)
        requires
            area == width * height,
    ;
    width as usize * height as usize * 4
}

/// The size that a buffer has to grow to, if it is too small. Buffers never
/// shrink: the App may still map the old size.
pub fn ensure_size(size: usize, needed: usize) -> (r: Option<usize>)
    ensures
        r == (if needed <= size {
            None::<usize>
        } else {
            Some(needed)
        }),
{
    if needed <= size {
        None
    } else {
        Some(needed)
    }
}

fn holds(list: &VecDeque<usize>, b: usize) -> (r: bool)
    ensures
        r == list@.contains(b),
{
    let n: usize = list.len();
    let mut i: usize = 0;
    while i < n
        invariant
            i <= n,
            n == list@.len(),
            forall|k: int| 0 <= k < i ==> list@[k] != b,
        decreases n - i,
    {
        if list[i] == b {
            assert(list@[i as int] == b);
            return true;
        }
        i += 1;
    }
    false
}

impl FrameCache {
    /// A pool of fresh buffers, none of them written. A frame has at least one
    /// pixel: nothing smaller can be mapped.
    pub fn new(width: u32, height: u32) -> (r: Self)
        requires
            0 < frame_len(width, height) <= usize::MAX,
        ensures
            r@ == (CacheState {
                next: 0,
                current: 0,
                seq: 0,
                width,
                height,
                pending: seq![seq![], seq![]],
                valid: seq![false, false],
                in_flight: seq![],
            }),
            r@.wf(),
    {
        let r = FrameCache {
            next: 0,
            current: 0,
            seq: 0,
            width,
            height,
            pending: vec![Vec::new(), Vec::new()],
            valid: vec![false, false],
            in_flight: VecDeque::new(),
        };
        assert(r@.pending =~= seq![seq![], seq![]]);
        r
    }

    /// The buffer whose memory the next push writes.
    pub fn target(&self) -> (r: usize)
        ensures
            r == self@.next,
    {
        self.next
    }

    /// Adds `r` to a damage list.
    fn union_rect(list: &mut Vec<Rect>, r: Rect)
        requires
            all_fit(old(list)@),
            r.fits(),
        ensures
            final(list)@ == united(old(list)@, r),
            all_fit(final(list)@),
    {
        proof {
            lemma_united_covers(list@, r);
        }
        let n: usize = list.len();
        let mut i: usize = 0;
        while i < n
            invariant
                i <= n,
                n == list@.len(),
                list@ == old(list)@,
                all_fit(list@),
                r.fits(),
                all_fit(united(list@, r)),
                forall|k: int|
                    0 <= k < i ==> !(#[trigger] list@[k]).encloses(r) && !list@[k].joins(r),
            decreases n - i,
        {
            let existing: Rect = list[i];
            proof {
                lemma_united_skip(list@, r, i as int);
                assert(list@.skip(i as int)[0] == existing);
            }
            if existing.contains(&r) {
                assert(united(list@, r) =~= list@);
                return ;
            }
            if existing.mergeable(&r) {
                let merged = existing.merged(&r);
                assert(united(list@, r) =~= list@.update(i as int, merged));
                list[i] = merged;
                return ;
            }
            i += 1;
        }
        proof {
            lemma_united_skip(list@, r, n as int);
            assert(list@.skip(n as int) =~= seq![]);
            assert(united(list@, r) =~= list@.push(r));
        }
        list.push(r);
    }

    /// Adds damage to the list of every buffer.
    fn accumulate(&mut self, rects: &[Rect])
        requires
            old(self)@.wf(),
            all_fit(rects@),
        ensures
            final(self)@ == old(self)@.damaged(rects@),
            final(self)@.wf(),
    {
        let mut b: usize = 0;
        while b < BUFFERS
            invariant
                b <= BUFFERS,
                self@.wf(),
                all_fit(rects@),
                self@ == (CacheState { pending: self@.pending, ..old(self)@ }),
                old(self)@.pending.len() == BUFFERS,
                forall|i: int|
                    0 <= i < b ==> #[trigger] self@.pending[i] == united_all(
                        old(self)@.pending[i],
                        rects@,
                    ),
                forall|i: int|
                    b <= i < BUFFERS ==> #[trigger] self@.pending[i] == old(self)@.pending[i],
            decreases BUFFERS - b,
        {
            let ghost before = self@;
            assert(all_fit(before.pending[b as int]));
            let mut list: Vec<Rect> = Vec::new();
            std::mem::swap(&mut list, &mut self.pending[b]);
            let ghost start = list@;
            assert(start == before.pending[b as int]);
            let mut k: usize = 0;
            while k < rects.len()
                invariant
                    k <= rects@.len(),
                    all_fit(rects@),
                    all_fit(list@),
                    list@ == united_all(start, rects@.take(k as int)),
                decreases rects@.len() - k,
            {
                Self::union_rect(&mut list, rects[k]);
                k += 1;
                assert(rects@.take(k as int).drop_last() =~= rects@.take(k - 1));
                assert(rects@.take(k as int).last() == rects@[k - 1]);
            }
            assert(rects@.take(k as int) =~= rects@);
            self.pending[b] = list;
            assert(self@.pending =~= before.pending.update(b as int, list@));
            assert(self@ =~= (CacheState { pending: self@.pending, ..old(self)@ }));
            b += 1;
        }
        assert(self@.pending =~= old(self)@.damaged(rects@).pending);
        assert(self@ =~= old(self)@.damaged(rects@));
    }

    /// Bookkeeping after all of the target was written: its own list is done,
    /// every other buffer has to repaint the whole frame.
    fn after_full_write(&mut self)
        requires
            old(self)@.wf(),
        ensures
            final(self)@ == old(self)@.overwritten(),
            final(self)@.wf(),
    {
        let full = Rect::full(self.width, self.height);
        let mut b: usize = 0;
        while b < BUFFERS
            invariant
                b <= BUFFERS,
                self@.wf(),
                self@ == (CacheState { pending: self@.pending, ..old(self)@ }),
                full == (Rect { x: 0, y: 0, w: old(self)@.width, h: old(self)@.height }),
                old(self)@.pending.len() == BUFFERS,
                forall|i: int|
                    0 <= i < b ==> #[trigger] self@.pending[i]
                        == old(self)@.overwritten().pending[i],
                forall|i: int|
                    b <= i < BUFFERS ==> #[trigger] self@.pending[i] == old(self)@.pending[i],
            decreases BUFFERS - b,
        {
            let ghost before = self@;
            assert(all_fit(before.pending[b as int]));
            let mut list: Vec<Rect> = Vec::new();
            std::mem::swap(&mut list, &mut self.pending[b]);
            assert(list@ == before.pending[b as int]);
            if b == self.next {
                list.clear();
            } else {
                Self::union_rect(&mut list, full);
            }
            self.pending[b] = list;
            assert(self@.pending =~= before.pending.update(b as int, list@));
            assert(self@ =~= (CacheState { pending: self@.pending, ..old(self)@ }));
            b += 1;
        }
        self.valid[self.next] = true;
        assert(self@.pending =~= old(self)@.overwritten().pending);
        assert(self@ =~= old(self)@.overwritten());
    }

    /// Makes the written target current and hands out a descriptor of it. The
    /// rotation advances whether or not there is one.
    fn rotate<T, D: FnOnce(usize) -> Option<T>>(&mut self, dup: D) -> (r: Option<T>)
        requires
            old(self)@.wf(),
            old(self)@.seq < u64::MAX,
            call_requires(dup, (old(self)@.next,)),
        ensures
            final(self)@ == old(self)@.rotated(),
            final(self)@.wf(),
            call_ensures(dup, (old(self)@.next,), r),
    {
        self.current = self.next;
        self.next = (self.next + 1) % BUFFERS;
        self.seq = self.seq + 1;
        assert(self@.pending =~= old(self)@.pending);
        assert(self@ =~= old(self)@.rotated());
        dup(self.current)
    }

    /// Cuts off what lies outside a frame.
    fn clamp_all(list: &Vec<Rect>, width: u32, height: u32) -> (r: Vec<Rect>)
        requires
            all_fit(list@),
        ensures
            r@ == Seq::new(list@.len(), |i: int| list@[i].within(width, height)),
    {
        let mut out: Vec<Rect> = Vec::new();
        let mut i: usize = 0;
        while i < list.len()
            invariant
                i <= list@.len(),
                all_fit(list@),
                out@.len() == i,
                forall|k: int| 0 <= k < i ==> #[trigger] out@[k] == list@[k].within(width, height),
            decreases list@.len() - i,
        {
            out.push(list[i].clamped(width, height));
            i += 1;
        }
        out
    }

    /// Writes a whole frame into the target, whose memory is `dst`, and hands
    /// out a descriptor. Nothing happens when `data` is no frame of that size,
    /// or when the target is too small for one.
    pub fn push<T, D: FnOnce(usize) -> Option<T>>(
        &mut self,
        data: &[u8],
        width: u32,
        height: u32,
        dst: &mut [u8],
        dup: D,
    ) -> (r: Option<T>)
        requires
            old(self)@.wf(),
            frame_len(width, height) <= usize::MAX,
            data@.len() == frame_len(width, height) <= old(dst)@.len() ==> {
                &&& old(self)@.seq < u64::MAX
                &&& call_requires(dup, (old(self)@.next,))
            },
        ensures
            final(self)@.wf(),
            ({
                let n = frame_len(width, height);
                if data@.len() != n || old(dst)@.len() < n {
                    &&& r is None
                    &&& final(self)@ == old(self)@
                    &&& final(dst)@ == old(dst)@
                } else {
                    &&& final(dst)@ == data@ + old(dst)@.skip(n)
                    &&& final(self)@ == old(self)@.overwritten().rotated()
                    &&& call_ensures(dup, (old(self)@.next,), r)
                }
            }),
    {
        let needed: usize = frame_bytes(width, height);
        if data.len() != needed || dst.len() < needed {
            return None;
        }
        copy_front(dst, data);
        self.after_full_write();
        self.rotate(dup)
    }

    /// As [`FrameCache::push`], with a writer that fills the frame in place.
    pub fn push_from<T, W: FnOnce(&mut [u8]), D: FnOnce(usize) -> Option<T>>(
        &mut self,
        width: u32,
        height: u32,
        dst: &mut [u8],
        write: W,
        dup: D,
    ) -> (r: Option<T>)
        requires
            old(self)@.wf(),
            frame_len(width, height) <= usize::MAX,
            frame_len(width, height) <= old(dst)@.len() ==> {
                &&& old(self)@.seq < u64::MAX
                &&& call_requires(dup, (old(self)@.next,))
                &&& forall|d: &mut [u8]|
                    (*d)@ == old(dst)@.take(frame_len(width, height)) ==> #[trigger] call_requires(
                        write,
                        (d,),
                    )
            },
        ensures
            final(self)@.wf(),
            ({
                let n = frame_len(width, height);
                if old(dst)@.len() < n {
                    &&& r is None
                    &&& final(self)@ == old(self)@
                    &&& final(dst)@ == old(dst)@
                } else {
                    &&& exists|d: &mut [u8]| #[trigger]
                        call_ensures(write, (d,), ()) && d@ == old(dst)@.take(n) && final(dst)@
                            == final(d)@ + old(dst)@.skip(n)
                    &&& final(self)@ == old(self)@.overwritten().rotated()
                    &&& call_ensures(dup, (old(self)@.next,), r)
                }
            }),
    {
        let needed: usize = frame_bytes(width, height);
        if dst.len() < needed {
            return None;
        }
        let (frame, _rest) = dst.split_at_mut(needed);
        write(frame);
        self.after_full_write();
        self.rotate(dup)
    }

    /// Repaints the target by damage. The writer gets the frame of the target
    /// and the rectangles that it has to copy into it, all within the frame.
    ///
    /// `None` when the target is too small, when the App holds it (the frame is
    /// dropped, its damage stays on the lists), or when no descriptor can be
    /// had. With a descriptor the buffer counts as held by the App.
    pub fn push_damaged<T, W: FnOnce(&mut [u8], &[Rect]), D: FnOnce(usize) -> Option<T>>(
        &mut self,
        width: u32,
        height: u32,
        rects: &[Rect],
        dst: &mut [u8],
        write: W,
        dup: D,
    ) -> (r: Option<T>)
        requires
            old(self)@.wf(),
            frame_len(width, height) <= usize::MAX,
            all_fit(rects@),
            frame_len(width, height) <= old(dst)@.len() && !old(self)@.in_flight.contains(
                old(self)@.next,
            ) ==> {
                &&& old(self)@.seq < u64::MAX
                &&& call_requires(dup, (old(self)@.next,))
                &&& forall|d: &mut [u8], e: &[Rect]|
                    (*d)@ == old(dst)@.take(frame_len(width, height)) && e@ == old(self)@.damaged(
                        rects@,
                    ).effective(width, height) ==> #[trigger] call_requires(write, (d, e))
            },
        ensures
            final(self)@.wf(),
            ({
                let n = frame_len(width, height);
                let s = old(self)@.damaged(rects@);
                if old(dst)@.len() < n {
                    &&& r is None
                    &&& final(self)@ == old(self)@
                    &&& final(dst)@ == old(dst)@
                } else if s.in_flight.contains(s.next) {
                    &&& r is None
                    &&& final(self)@ == s
                    &&& final(dst)@ == old(dst)@
                } else {
                    &&& exists|d: &mut [u8], e: &[Rect]| #[trigger]
                        call_ensures(write, (d, e), ()) && d@ == old(dst)@.take(n) && e@
                            == s.effective(width, height) && final(dst)@ == final(d)@ + old(dst)@.skip(n)
                    &&& call_ensures(dup, (old(self)@.next,), r)
                    &&& final(self)@ == (if r is Some {
                        s.repainted().rotated().lent()
                    } else {
                        s.repainted().rotated()
                    })
                }
            }),
    {
        let needed: usize = frame_bytes(width, height);
        if dst.len() < needed {
            return None;
        }
        self.accumulate(rects);
        let ghost s = self@;
        if holds(&self.in_flight, self.next) {
            return None;
        }
        let mut missing: Vec<Rect> = Vec::new();
        std::mem::swap(&mut missing, &mut self.pending[self.next]);
        if !self.valid[self.next] {
            missing = vec![Rect::full(self.width, self.height)];
        }
        assert(missing@ =~= s.missing());
        let effective = Self::clamp_all(&missing, width, height);
        assert(effective@ =~= s.effective(width, height));
        let (frame, _rest) = dst.split_at_mut(needed);
        write(frame, effective.as_slice());
        self.valid[self.next] = true;
        assert(self@.pending =~= s.repainted().pending);
        assert(self@ =~= s.repainted());
        let fd = self.rotate(dup);
        if fd.is_some() {
            self.in_flight.push_back(self.current);
            assert(self@.pending =~= s.repainted().pending);
            assert(self@ =~= s.repainted().rotated().lent());
        }
        fd
    }

    /// The App is done with the oldest buffer it holds. Without one, nothing
    /// happens.
    pub fn on_release(&mut self)
        requires
            old(self)@.wf(),
        ensures
            final(self)@ == (CacheState {
                in_flight: if old(self)@.in_flight.len() > 0 {
                    old(self)@.in_flight.drop_first()
                } else {
                    old(self)@.in_flight
                },
                ..old(self)@
            }),
            final(self)@.wf(),
    {
        let _ = self.in_flight.pop_front();
        assert(self@.pending =~= old(self)@.pending);
    }

    /// A new session: whatever the old one held is gone.
    pub fn reset_in_flight(&mut self)
        requires
            old(self)@.wf(),
        ensures
            final(self)@ == (CacheState { in_flight: seq![], ..old(self)@ }),
            final(self)@.wf(),
    {
        self.in_flight.clear();
        assert(self@.pending =~= old(self)@.pending);
    }

    /// A descriptor of the frame that was written last, with its number and
    /// size. `None` before the first frame.
    pub fn current_frame<T, D: FnOnce(usize) -> Option<T>>(&self, dup: D) -> (r: Option<
        (T, u64, u32, u32),
    >)
        requires
            self@.seq != 0 ==> call_requires(dup, (self@.current,)),
        ensures
            self@.seq == 0 ==> r is None,
            self@.seq != 0 ==> exists|fd: Option<T>| #[trigger]
                call_ensures(dup, (self@.current,), fd) && r == (match fd {
                    Some(fd) => Some((fd, self@.seq, self@.width, self@.height)),
                    None => None,
                }),
    {
        if self.seq == 0 {
            return None;
        }
        match dup(self.current) {
            Some(fd) => Some((fd, self.seq, self.width, self.height)),
            None => None,
        }
    }

    /// The App holds the current buffer, if it does not already.
    pub fn mark_current_in_flight(&mut self)
        requires
            old(self)@.wf(),
        ensures
            final(self)@ == (if old(self)@.in_flight.contains(old(self)@.current) {
                old(self)@
            } else {
                old(self)@.lent()
            }),
            final(self)@.wf(),
    {
        if !holds(&self.in_flight, self.current) {
            self.in_flight.push_back(self.current);
            assert(self@.pending =~= old(self)@.pending);
            assert(self@ =~= old(self)@.lent());
        }
    }

    pub fn seq(&self) -> (r: u64)
        ensures
            r == self@.seq,
    {
        self.seq
    }

    /// Whether a size is another one than the present.
    pub fn size_differs(&self, width: u32, height: u32) -> (r: bool)
        ensures
            r == !(self@.width == width && self@.height == height),
    {
        !(self.width == width && self.height == height)
    }

    /// Switches to another size. `rebuilt` says whether the caller has a whole
    /// new pool of buffers of that size; without one everything stays as it is.
    /// Frame numbers go on.
    pub fn set_dimensions(&mut self, width: u32, height: u32, rebuilt: bool)
        requires
            old(self)@.wf(),
            0 < frame_len(width, height) <= usize::MAX || (old(self)@.width == width
                && old(self)@.height == height),
        ensures
            final(self)@ == (if (old(self)@.width == width && old(self)@.height == height)
                || !rebuilt {
                old(self)@
            } else {
                CacheState {
                    next: 0,
                    current: 0,
                    width,
                    height,
                    pending: seq![seq![], seq![]],
                    valid: seq![false, false],
                    ..old(self)@
                }
            }),
            final(self)@.wf(),
    {
        if !self.size_differs(width, height) || !rebuilt {
            return ;
        }
        self.next = 0;
        self.current = 0;
        self.width = width;
        self.height = height;
        self.pending = vec![Vec::new(), Vec::new()];
        self.valid = vec![false, false];
        assert(self@.pending =~= seq![seq![], seq![]]);
    }
}

/// Copies `src` over the front of `dst`.
pub fn copy_front(dst: &mut [u8], src: &[u8])
    requires
        src@.len() <= old(dst)@.len(),
    ensures
        final(dst)@ == src@ + old(dst)@.skip(src@.len() as int),
{
    let n: usize = src.len();
    let mut i: usize = 0;
    while i < n
        invariant
            i <= n,
            n == src@.len(),
            n <= old(dst)@.len(),
            dst@ == src@.take(i as int) + old(dst)@.skip(i as int),
        decreases n - i,
    {
        dst[i] = src[i];
        i += 1;
        assert(dst@ =~= src@.take(i as int) + old(dst)@.skip(i as int));
    }
    assert(src@.take(n as int) =~= src@);
}

/// A frame has four bytes per pixel.
pub proof fn lemma_four_bytes_per_pixel(width: u32, height: u32)
    ensures
        frame_len(width, height) == 4 * (width as int) * (height as int),
{
    assert(width * height * 4 == 4 * (width as int) * (height as int)) by (nonlinear_arith);
}

/// What lies within a frame is exactly what lies in the rectangle and in the
/// frame.
pub proof fn lemma_within_is_the_common_part(r: Rect, width: u32, height: u32, x: int, y: int)
    requires
        r.fits(),
        x >= 0,
        y >= 0,
    ensures
        r.within(width, height).has(x, y) <==> r.has(x, y) && x < width && y < height,
        r.within(width, height).x + r.within(width, height).w <= width,
        r.within(width, height).y + r.within(width, height).h <= height,
{
}

/// The bound of two rectangles has all of both, and any rectangle around both has
/// all of it.
pub proof fn lemma_bound_is_smallest(a: Rect, b: Rect, c: Rect, x: int, y: int)
    requires
        a.fits(),
        b.fits(),
        c.fits(),
    ensures
        a.bound(b).fits(),
        a.has(x, y) || b.has(x, y) ==> a.bound(b).has(x, y),
        c.x <= a.x && c.x <= b.x && c.y <= a.y && c.y <= b.y && a.x + a.w <= c.x + c.w && b.x + b.w
            <= c.x + c.w && a.y + a.h <= c.y + c.h && b.y + b.h <= c.y + c.h ==> c.x <= a.bound(b).x
            && c.y <= a.bound(b).y && a.bound(b).x + a.bound(b).w <= c.x + c.w && a.bound(b).y
            + a.bound(b).h <= c.y + c.h,
        a.bound(b) == b.bound(a),
{
}

/// A rectangle encloses another that has pixels exactly if it has all of them.
pub proof fn lemma_enclosed_means_all_pixels(a: Rect, b: Rect)
    requires
        b.w > 0,
        b.h > 0,
    ensures
        a.encloses(b) <==> forall|x: int, y: int| b.has(x, y) ==> #[trigger] a.has(x, y),
{
    if forall|x: int, y: int| b.has(x, y) ==> #[trigger] a.has(x, y) {
        assert(b.has(b.x as int, b.y as int));
        assert(a.has(b.x as int, b.y as int));
        assert(b.has(b.x + b.w - 1, b.y + b.h - 1));
        assert(a.has(b.x + b.w - 1, b.y + b.h - 1));
    }
}

/// The pixels are the same, or lie side by side or one above the other.
pub open spec fn next_to(x: int, y: int, u: int, v: int) -> bool {
    (x == u && -1 <= y - v <= 1) || (y == v && -1 <= x - u <= 1)
}

/// Two rectangles that have pixels join exactly if a pixel of one is a pixel of
/// the other or lies next to one. Touching corners is not enough.
pub proof fn lemma_joined_means_neighbours(a: Rect, b: Rect)
    requires
        a.w > 0,
        a.h > 0,
        b.w > 0,
        b.h > 0,
    ensures
        a.joins(b) <==> exists|x: int, y: int, u: int, v: int|
            a.has(x, y) && b.has(u, v) && #[trigger] next_to(x, y, u, v),
{
    if a.joins(b) {
        let over_x = a.x < b.x + b.w && b.x < a.x + a.w;
        let over_y = a.y < b.y + b.h && b.y < a.y + a.h;
        let mx = if a.x >= b.x { a.x as int } else { b.x as int };
        let my = if a.y >= b.y { a.y as int } else { b.y as int };
        if over_x && over_y {
            assert(next_to(mx, my, mx, my));
        } else if over_x {
            if a.y + a.h == b.y {
                assert(next_to(mx, b.y - 1, mx, b.y as int));
                assert(a.has(mx, b.y - 1) && b.has(mx, b.y as int));
            } else {
                assert(a.y == b.y + b.h);
                assert(next_to(mx, a.y as int, mx, a.y - 1));
                assert(a.has(mx, a.y as int) && b.has(mx, a.y - 1));
            }
        } else {
            if a.x + a.w == b.x {
                assert(next_to(b.x - 1, my, b.x as int, my));
                assert(a.has(b.x - 1, my) && b.has(b.x as int, my));
            } else {
                assert(a.x == b.x + b.w);
                assert(next_to(a.x as int, my, a.x - 1, my));
                assert(a.has(a.x as int, my) && b.has(a.x - 1, my));
            }
        }
    }
}

/// A rectangle changes a list in one place at most: it is dropped if a rectangle
/// has it, else it widens the first that it joins by no more than it takes, and
/// else it is added at the end. All others stay.
pub proof fn lemma_united_changes_one(list: Seq<Rect>, r: Rect)
    ensures
        ({
            let out = united(list, r);
            ||| exists|k: int|
                0 <= k < list.len() && #[trigger] list[k].encloses(r) && out == list && forall|j: int|
                    0 <= j < k ==> !(#[trigger] list[j]).encloses(r) && !list[j].joins(r)
            ||| exists|k: int|
                {
                    &&& 0 <= k < list.len()
                    &&& #[trigger] list[k].joins(r) && !list[k].encloses(r)
                    &&& out == list.update(k, list[k].bound(r))
                    &&& forall|j: int|
                        0 <= j < k ==> !(#[trigger] list[j]).encloses(r) && !list[j].joins(r)
                }
            ||| out == list.push(r) && forall|j: int|
                0 <= j < list.len() ==> !(#[trigger] list[j]).encloses(r) && !list[j].joins(r)
        }),
    decreases list.len(),
{
    let out = united(list, r);
    if list.len() == 0 {
        assert(out =~= list.push(r));
    } else if list[0].encloses(r) {
    } else if list[0].joins(r) {
    } else {
        let tail = list.drop_first();
        lemma_united_changes_one(tail, r);
        let rest = united(tail, r);
        if exists|k: int|
            0 <= k < tail.len() && #[trigger] tail[k].encloses(r) && rest == tail && forall|j: int|
                0 <= j < k ==> !(#[trigger] tail[j]).encloses(r) && !tail[j].joins(r) {
            let k = choose|k: int|
                0 <= k < tail.len() && #[trigger] tail[k].encloses(r) && rest == tail && forall|
                    j: int,
                |
                    0 <= j < k ==> !(#[trigger] tail[j]).encloses(r) && !tail[j].joins(r);
            assert(list[k + 1] == tail[k]);
            assert(out =~= list);
            assert forall|j: int| 0 <= j < k + 1 implies !(#[trigger] list[j]).encloses(r)
                && !list[j].joins(r) by {
                if j > 0 {
                    assert(list[j] == tail[j - 1]);
                }
            }
            assert(list[k + 1].encloses(r));
        } else if exists|k: int|
            {
                &&& 0 <= k < tail.len()
                &&& #[trigger] tail[k].joins(r) && !tail[k].encloses(r)
                &&& rest == tail.update(k, tail[k].bound(r))
                &&& forall|j: int|
                    0 <= j < k ==> !(#[trigger] tail[j]).encloses(r) && !tail[j].joins(r)
            } {
            let k = choose|k: int|
                {
                    &&& 0 <= k < tail.len()
                    &&& #[trigger] tail[k].joins(r) && !tail[k].encloses(r)
                    &&& rest == tail.update(k, tail[k].bound(r))
                    &&& forall|j: int|
                        0 <= j < k ==> !(#[trigger] tail[j]).encloses(r) && !tail[j].joins(r)
                };
            assert(list[k + 1] == tail[k]);
            assert(out =~= list.update(k + 1, list[k + 1].bound(r)));
            assert forall|j: int| 0 <= j < k + 1 implies !(#[trigger] list[j]).encloses(r)
                && !list[j].joins(r) by {
                if j > 0 {
                    assert(list[j] == tail[j - 1]);
                }
            }
            assert(list[k + 1].joins(r));
        } else {
            assert(rest == tail.push(r));
            assert(out =~= list.push(r));
            assert forall|j: int| 0 <= j < list.len() implies !(#[trigger] list[j]).encloses(r)
                && !list[j].joins(r) by {
                if j > 0 {
                    assert(list[j] == tail[j - 1]);
                }
            }
        }
    }
}

/// Damage goes on the list of each buffer, rectangle by rectangle and in order,
/// and changes nothing else.
pub proof fn lemma_damage_goes_on_every_list(s: CacheState, rects: Seq<Rect>, r: Rect, i: int)
    requires
        s.wf(),
        0 <= i < 2,
    ensures
        s.damaged(seq![]) == s,
        s.damaged(rects.push(r)).pending[i] == united(s.damaged(rects).pending[i], r),
        s.damaged(rects) == (CacheState { pending: s.damaged(rects).pending, ..s }),
        s.damaged(rects).pending.len() == 2,
{
    assert(s.damaged(seq![]) =~= s) by {
        assert(s.damaged(seq![]).pending =~= s.pending);
    }
    assert(rects.push(r).drop_last() =~= rects);
}

/// What the target has to copy is what its own list says and lies in the frame,
/// no more and no less; everything, where it was never written.
pub proof fn lemma_target_copies_its_list(s: CacheState, width: u32, height: u32, x: int, y: int)
    requires
        s.wf(),
        0 <= x < width,
        0 <= y < height,
    ensures
        s.valid[s.next as int] ==> (covered(s.effective(width, height), x, y) <==> covered(
            s.pending[s.next as int],
            x,
            y,
        )),
        s.valid[s.next as int] ==> s.effective(width, height).len()
            == s.pending[s.next as int].len(),
        !s.valid[s.next as int] ==> (covered(s.effective(width, height), x, y) <==> x < s.width && y
            < s.height),
        !s.valid[s.next as int] ==> s.effective(width, height).len() == 1,
{
    let out = s.effective(width, height);
    let list = s.missing();
    assert(all_fit(s.pending[s.next as int]));
    assert forall|i: int| 0 <= i < list.len() implies ((#[trigger] out[i]).has(x, y)
        <==> list[i].has(x, y)) by {
        lemma_within_is_the_common_part(list[i], width, height, x, y);
    }
    if covered(list, x, y) {
        let i = choose|i: int| 0 <= i < list.len() && (#[trigger] list[i]).has(x, y);
        assert(out[i].has(x, y));
    }
    if covered(out, x, y) {
        let i = choose|i: int| 0 <= i < out.len() && (#[trigger] out[i]).has(x, y);
        assert(list[i].has(x, y));
    }
    if !s.valid[s.next as int] {
        assert(list[0].has(x, y) <==> x < s.width && y < s.height);
        if x < s.width && y < s.height {
            assert(covered(list, x, y));
        }
    }
}

/// A written target is up to date and becomes the current buffer; the other one
/// is the next target, and keeps its list after a repaint and gets the whole
/// frame on it after an overwrite. Frames are numbered one by one.
pub proof fn lemma_buffers_alternate(s: CacheState)
    requires
        s.wf(),
        s.seq < u64::MAX,
    ensures
        ({
            let t = s.repainted().rotated();
            let o = s.overwritten().rotated();
            let at = s.next as int;
            &&& t.current == s.next && t.next == 1 - s.next && t.seq == s.seq + 1
            &&& t.pending[at].len() == 0 && t.valid[at]
            &&& t.pending[1 - at] == s.pending[1 - at] && t.valid[1 - at] == s.valid[1 - at]
            &&& t.in_flight == s.in_flight && t.width == s.width && t.height == s.height
            &&& o.current == s.next && o.next == 1 - s.next && o.seq == s.seq + 1
            &&& o.pending[at].len() == 0 && o.valid[at] && o.valid[1 - at] == s.valid[1 - at]
            &&& o.in_flight == s.in_flight && o.width == s.width && o.height == s.height
            &&& o.pending[1 - at] == united(
                s.pending[1 - at],
                Rect { x: 0, y: 0, w: s.width, h: s.height },
            )
            &&& forall|x: int, y: int|
                0 <= x < s.width && 0 <= y < s.height ==> #[trigger] covered(o.pending[1 - at], x, y)
        }),
{
    let full = Rect { x: 0, y: 0, w: s.width, h: s.height };
    let at = s.next as int;
    assert(all_fit(s.pending[1 - at]));
    lemma_united_covers(s.pending[1 - at], full);
    let o = s.overwritten().rotated();
    assert forall|x: int, y: int| 0 <= x < s.width && 0 <= y < s.height implies #[trigger] covered(
        o.pending[1 - at],
        x,
        y,
    ) by {
        assert(full.has(x, y));
    }
}

/// A buffer that goes to the App is with it, behind those that went before, and
/// nothing else changes.
pub proof fn lemma_lent_is_the_current(s: CacheState)
    ensures
        s.lent().in_flight.len() == s.in_flight.len() + 1,
        s.lent().in_flight.last() == s.current,
        forall|k: int|
            0 <= k < s.in_flight.len() ==> #[trigger] s.lent().in_flight[k] == s.in_flight[k],
        s.lent() == (CacheState { in_flight: s.lent().in_flight, ..s }),
{
}

} // verus!
