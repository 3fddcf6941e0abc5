//! From received pixels to the window: row copies, snapshot sizes, the mapping
//! cache and the window that is held.

use vstd::prelude::*;
use crate::frame_cache::frame_bytes;

verus! {

/// Bytes per pixel of the window and of the frames.
pub const BPP: usize = 4;

pub open spec fn min_int(a: int, b: int) -> int {
    if a <= b {
        a
    } else {
        b
    }
}

/// How many bytes of row `y` can be copied.
pub open spec fn row_count(
    dst_len: int,
    dst_stride: int,
    src_len: int,
    src_stride: int,
    row_bytes: int,
    y: int,
) -> int {
    if y * src_stride >= src_len || y * dst_stride >= dst_len {
        0
    } else {
        min_int(min_int(row_bytes, src_len - y * src_stride), dst_len - y * dst_stride)
    }
}

/// The row begins behind the end of the source, or cannot be copied whole.
pub open spec fn row_cut(
    dst_len: int,
    dst_stride: int,
    src_len: int,
    src_stride: int,
    row_bytes: int,
    y: int,
) -> bool {
    y * src_stride >= src_len || row_count(
        dst_len,
        dst_stride,
        src_len,
        src_stride,
        row_bytes,
        y,
    ) < row_bytes
}

/// `dst` with `n` bytes at `at` taken from `src` at `from`.
pub open spec fn overlaid(dst: Seq<u8>, at: int, src: Seq<u8>, from: int, n: int) -> Seq<u8> {
    Seq::new(
        dst.len(),
        |i: int|
            if at <= i < at + n {
                src[from + (i - at)]
            } else {
                dst[i]
            },
    )
}

/// `dst` after the first `rows` rows were copied, one after the other.
pub open spec fn rows_copied(
    dst: Seq<u8>,
    dst_stride: int,
    src: Seq<u8>,
    src_stride: int,
    row_bytes: int,
    rows: nat,
) -> Seq<u8>
    decreases rows,
{
    if rows == 0 {
        dst
    } else {
        let y = rows - 1;
        overlaid(
            rows_copied(dst, dst_stride, src, src_stride, row_bytes, y as nat),
            y * dst_stride,
            src,
            y * src_stride,
            row_count(
                dst.len() as int,
                dst_stride,
                src.len() as int,
                src_stride,
                row_bytes,
                y,
            ),
        )
    }
}

/// Copies `n` bytes.
fn copy_bytes(dst: &mut [u8], at: usize, src: &[u8], from: usize, n: usize)
    requires
        at + n <= old(dst)@.len(),
        from + n <= src@.len(),
    ensures
        final(dst)@ == overlaid(old(dst)@, at as int, src@, from as int, n as int),
{
    let ghost before = dst@;
    let mut i: usize = 0;
    let len: usize = dst.len();
    let src_len: usize = src.len();
    while i < n
        invariant
            i <= n,
            at + n <= len,
            from + n <= src_len,
            len == dst@.len(),
            src_len == src@.len(),
            dst@ == overlaid(before, at as int, src@, from as int, i as int),
        decreases n - i,
    {
        dst[at + i] = src[from + i];
        i += 1;
        assert(dst@ =~= overlaid(before, at as int, src@, from as int, i as int));
    }
    assert(dst@ =~= overlaid(before, at as int, src@, from as int, n as int));
}

/// Some row of `rows` cannot be copied whole.
pub open spec fn any_row_cut(
    dst_len: int,
    dst_stride: int,
    src_len: int,
    src_stride: int,
    row_bytes: int,
    rows: int,
) -> bool {
    exists|y: int|
        0 <= y < rows && #[trigger] row_cut(dst_len, dst_stride, src_len, src_stride, row_bytes, y)
}

/// Copies rows of pixels between buffers whose byte order is the same and whose
/// strides may differ. Nothing is read or written out of bounds: rows are
/// clamped or left out. Says whether any was.
///
/// Rows that leave no gap in either buffer are one block, which is copied at
/// once.
pub fn copy_row_bgra(
    dst: &mut [u8],
    dst_stride_bytes: usize,
    src: &[u8],
    src_stride_bytes: usize,
    copy_w: usize,
    copy_h: usize,
) -> (truncated: bool)
    requires
        copy_w * 4 <= usize::MAX,
    ensures
        final(dst)@ == rows_copied(
            old(dst)@,
            dst_stride_bytes as int,
            src@,
            src_stride_bytes as int,
            copy_w * 4,
            copy_h as nat,
        ),
        truncated <==> (copy_w > 0 || src_stride_bytes != dst_stride_bytes) && any_row_cut(
            old(dst)@.len() as int,
            dst_stride_bytes as int,
            src@.len() as int,
            src_stride_bytes as int,
            copy_w * 4,
            copy_h as int,
        ),
{
    let row_bytes: usize = copy_w * 4;
    let src_len: usize = src.len();
    let dst_len: usize = dst.len();
    let ghost before = dst@;
    let ghost ds = dst_stride_bytes as int;
    let ghost ss = src_stride_bytes as int;
    let ghost rb = row_bytes as int;
    if src_stride_bytes == row_bytes && dst_stride_bytes == row_bytes {
        let mut n: usize = src_len;
        if dst_len < n {
            n = dst_len;
        }
        let mut cut: bool = true;
        if let Some(total) = row_bytes.checked_mul(copy_h) {
            if total <= n {
                n = total;
                cut = false;
            }
        }
        copy_bytes(dst, 0, src, 0, n);
        proof {
            assert(row_bytes * copy_h == copy_h * rb && (rb == 0 ==> copy_h * rb == 0))
                by (nonlinear_arith)
                requires
                    rb == row_bytes,
            ;
            lemma_block_is_rows(before, src@, rb, copy_h as nat);
        }
        return cut;
    }
    let mut truncated: bool = false;
    let mut y: usize = 0;
    while y < copy_h
        invariant
            y <= copy_h,
            ds == dst_stride_bytes,
            ss == src_stride_bytes,
            rb == row_bytes,
            src_len == src@.len(),
            dst_len == dst@.len(),
            dst_len == before.len(),
            dst@ == rows_copied(before, ds, src@, ss, rb, y as nat),
            truncated <==> (row_bytes > 0 || src_stride_bytes != dst_stride_bytes) && any_row_cut(
                dst_len as int,
                ds,
                src_len as int,
                ss,
                rb,
                y as int,
            ),
        decreases copy_h - y,
    {
        assert(0 <= y * ss && 0 <= y * ds) by (nonlinear_arith)
            requires
                0 <= y,
                0 <= ss,
                0 <= ds,
        ;
        // A row that no address reaches lies behind the end of any buffer.
        let src_row: usize = match y.checked_mul(src_stride_bytes) {
            Some(at) => at,
            None => usize::MAX,
        };
        let dst_row: usize = match y.checked_mul(dst_stride_bytes) {
            Some(at) => at,
            None => usize::MAX,
        };
        let mut n: usize = 0;
        if src_row < src_len && dst_row < dst_len {
            n = row_bytes;
            if src_len - src_row < n {
                n = src_len - src_row;
            }
            if dst_len - dst_row < n {
                n = dst_len - dst_row;
            }
        }
        if (row_bytes > 0 || src_stride_bytes != dst_stride_bytes) && (src_row >= src_len || n
            < row_bytes) {
            truncated = true;
        }
        let ghost mid = dst@;
        if n > 0 {
            copy_bytes(dst, dst_row, src, src_row, n);
        }
        proof {
            assert(n == row_count(dst_len as int, ds, src_len as int, ss, rb, y as int));
            assert(dst@ =~= overlaid(mid, y * ds, src@, y * ss, n as int));
            assert(dst@ == rows_copied(before, ds, src@, ss, rb, (y + 1) as nat));
            assert(row_cut(dst_len as int, ds, src_len as int, ss, rb, y as int) <==> src_row
                >= src_len || n < row_bytes);
        }
        y += 1;
    }
    truncated
}

/// Rows without gaps are one block.
proof fn lemma_block_is_rows(dst: Seq<u8>, src: Seq<u8>, row_bytes: int, rows: nat)
    requires
        0 <= row_bytes,
    ensures
        ({
            let total = rows * row_bytes;
            let n = min_int(min_int(total, src.len() as int), dst.len() as int);
            &&& rows_copied(dst, row_bytes, src, row_bytes, row_bytes, rows) == overlaid(
                dst,
                0,
                src,
                0,
                n,
            )
            &&& row_bytes > 0 ==> (any_row_cut(
                dst.len() as int,
                row_bytes,
                src.len() as int,
                row_bytes,
                row_bytes,
                rows as int,
            ) <==> n < total)
        }),
    decreases rows,
{
    let total = rows * row_bytes;
    let n = min_int(min_int(total, src.len() as int), dst.len() as int);
    if rows == 0 {
        assert(total == 0) by (nonlinear_arith)
            requires
                total == rows * row_bytes,
                rows == 0,
        ;
        assert(overlaid(dst, 0, src, 0, n) =~= dst);
    } else {
        let y = rows - 1;
        lemma_block_is_rows(dst, src, row_bytes, y as nat);
        assert(total == y * row_bytes + row_bytes && 0 <= y * row_bytes) by (nonlinear_arith)
            requires
                total == rows * row_bytes,
                y == rows - 1,
                0 <= y,
                0 <= row_bytes,
        ;
        assert(rows_copied(dst, row_bytes, src, row_bytes, row_bytes, rows) =~= overlaid(
            dst,
            0,
            src,
            0,
            n,
        ));
        if row_bytes > 0 {
            let (d, s) = (dst.len() as int, src.len() as int);
            if n < total {
                assert(row_cut(d, row_bytes, s, row_bytes, row_bytes, y));
            } else {
                assert(!row_cut(d, row_bytes, s, row_bytes, row_bytes, y));
                assert(!any_row_cut(d, row_bytes, s, row_bytes, row_bytes, y));
                assert forall|k: int| 0 <= k < rows implies !#[trigger] row_cut(
                    d,
                    row_bytes,
                    s,
                    row_bytes,
                    row_bytes,
                    k,
                ) by {
                    assert(k < y || k == y);
                }
            }
        }
    }
}

/// Where rows do not overlap in the destination, each pixel that fits both
/// buffers ends up in its place.
pub proof fn lemma_rows_in_place(
    dst: Seq<u8>,
    dst_stride: int,
    src: Seq<u8>,
    src_stride: int,
    row_bytes: int,
    rows: nat,
    y: int,
    i: int,
)
    requires
        0 <= row_bytes <= dst_stride,
        0 <= src_stride,
        0 <= y < rows,
        0 <= i < row_bytes,
        y * src_stride + i < src.len(),
        y * dst_stride + i < dst.len(),
    ensures
        rows_copied(dst, dst_stride, src, src_stride, row_bytes, rows).len() == dst.len(),
        rows_copied(dst, dst_stride, src, src_stride, row_bytes, rows)[y * dst_stride + i] == src[y
            * src_stride + i],
    decreases rows,
{
    lemma_rows_keep_len(dst, dst_stride, src, src_stride, row_bytes, rows);
    let last = rows - 1;
    lemma_rows_keep_len(dst, dst_stride, src, src_stride, row_bytes, last as nat);
    if y == last {
        assert(0 <= y * src_stride && 0 <= y * dst_stride) by (nonlinear_arith)
            requires
                0 <= y,
                0 <= src_stride,
                0 <= dst_stride,
        ;
    } else {
        lemma_rows_in_place(
            dst,
            dst_stride,
            src,
            src_stride,
            row_bytes,
            last as nat,
            y,
            i,
        );
        assert(0 <= y * dst_stride && y * dst_stride + dst_stride <= last * dst_stride)
            by (nonlinear_arith)
            requires
                0 <= y,
                y + 1 <= last,
                0 <= dst_stride,
        ;
    }
}

/// Bytes of the destination that belong to no copied row keep their value.
pub proof fn lemma_rest_is_untouched(
    dst: Seq<u8>,
    dst_stride: int,
    src: Seq<u8>,
    src_stride: int,
    row_bytes: int,
    rows: nat,
    at: int,
)
    requires
        0 <= at < dst.len(),
        forall|y: int|
            #![trigger row_count(dst.len() as int, dst_stride, src.len() as int, src_stride, row_bytes, y)]
            0 <= y < rows ==> !(y * dst_stride <= at < y * dst_stride + row_count(
                dst.len() as int,
                dst_stride,
                src.len() as int,
                src_stride,
                row_bytes,
                y,
            )),
    ensures
        rows_copied(dst, dst_stride, src, src_stride, row_bytes, rows)[at] == dst[at],
    decreases rows,
{
    if rows > 0 {
        let last = (rows - 1) as nat;
        lemma_rows_keep_len(dst, dst_stride, src, src_stride, row_bytes, last);
        lemma_rest_is_untouched(dst, dst_stride, src, src_stride, row_bytes, last, at);
    }
}

proof fn lemma_rows_keep_len(
    dst: Seq<u8>,
    dst_stride: int,
    src: Seq<u8>,
    src_stride: int,
    row_bytes: int,
    rows: nat,
)
    ensures
        rows_copied(dst, dst_stride, src, src_stride, row_bytes, rows).len() == dst.len(),
    decreases rows,
{
    if rows > 0 {
        lemma_rows_keep_len(dst, dst_stride, src, src_stride, row_bytes, (rows - 1) as nat);
    }
}

/// How a frame is drawn into a locked window buffer.
#[derive(Clone, Copy, Debug, PartialEq, Eq, Structural)]
pub struct RenderPlan {
    pub dst_stride_bytes: usize,
    /// Bytes of the window buffer that are written to.
    pub dst_len: usize,
    pub src_stride_bytes: usize,
    pub copy_w: usize,
    pub copy_h: usize,
}

/// The plan for a frame of `width` by `height` pixels. `None` for a window
/// without area. The part that fits both is drawn.
pub fn plan_frame(
    buf_width: u32,
    buf_height: u32,
    buf_stride: u32,
    width: u32,
    height: u32,
) -> (r: Option<RenderPlan>)
    requires
        buf_stride * buf_height * 4 <= usize::MAX,
        width * 4 <= usize::MAX,
        buf_stride * 4 <= usize::MAX,
    ensures
        r is None <==> buf_width == 0 || buf_height == 0,
        r matches Some(p) ==> {
            let copy_h = min_int(buf_height as int, height as int);
            &&& p.dst_stride_bytes == buf_stride * 4
            &&& p.src_stride_bytes == width * 4
            &&& p.copy_w == min_int(buf_width as int, width as int)
            &&& p.copy_h == copy_h
            &&& p.dst_len == buf_stride * copy_h * 4
        },
{
    if buf_width == 0 || buf_height == 0 {
        return None;
    }
    let copy_w: u32 = if buf_width <= width {
        buf_width
    } else {
        width
    };
    let copy_h: u32 = if buf_height <= height {
        buf_height
    } else {
        height
    };
    assert(0 <= buf_stride * copy_h <= buf_stride * buf_height) by (nonlinear_arith)
        requires
            copy_h <= buf_height,
    ;
    let dst_len: usize = buf_stride as usize * copy_h as usize * BPP;
    Some(
        RenderPlan {
            dst_stride_bytes: buf_stride as usize * BPP,
            dst_len,
            src_stride_bytes: width as usize * BPP,
            copy_w: copy_w as usize,
            copy_h: copy_h as usize,
        },
    )
}

/// Bytes that blanking a window buffer clears. `None` for one without area.
pub fn plan_blank(buf_width: u32, buf_height: u32, buf_stride: u32) -> (r: Option<usize>)
    requires
        buf_stride * 4 * buf_height <= usize::MAX,
        buf_stride * 4 <= usize::MAX,
    ensures
        r is None <==> buf_width == 0 || buf_height == 0,
        r matches Some(n) ==> n == buf_stride * 4 * buf_height,
{
    if buf_width == 0 || buf_height == 0 {
        return None;
    }
    Some(buf_stride as usize * 4 * buf_height as usize)
}

/// Why no snapshot is taken.
#[derive(Clone, Copy, Debug, PartialEq, Eq, Structural)]
pub enum SnapshotError {
    StatFailed,
    Empty,
    MapFailed,
}

/// Bytes of a frame that the descriptor really has. `stat` is the size that the
/// system reports.
pub fn snapshot_len(width: u32, height: u32, stat: Option<u64>) -> (r: Result<usize, SnapshotError>)
    requires
        crate::frame_cache::frame_len(width, height) <= usize::MAX,
    ensures
        r == (match stat {
            None => Err::<usize, SnapshotError>(SnapshotError::StatFailed),
            Some(size) => if min_int(size as int, crate::frame_cache::frame_len(width, height))
                == 0 {
                Err(SnapshotError::Empty)
            } else {
                Ok(min_int(size as int, crate::frame_cache::frame_len(width, height)) as usize)
            },
        }),
{
    let size: usize = frame_bytes(width, height);
    match stat {
        None => Err(SnapshotError::StatFailed),
        Some(have) => {
            let len: usize = if have < size as u64 {
                have as usize
            } else {
                size
            };
            if len == 0 {
                Err(SnapshotError::Empty)
            } else {
                Ok(len)
            }
        },
    }
}

/// Replaces `out` by the front of a mapping.
pub fn snapshot_frame_into(mapped: &[u8], map_len: usize, out: &mut Vec<u8>)
    requires
        map_len <= mapped@.len(),
    ensures
        final(out)@ == mapped@.take(map_len as int),
{
    out.clear();
    let mut i: usize = 0;
    while i < map_len
        invariant
            i <= map_len,
            map_len <= mapped@.len(),
            out@ == mapped@.take(i as int),
        decreases map_len - i,
    {
        out.push(mapped[i]);
        i += 1;
        assert(out@ =~= mapped@.take(i as int));
    }
}

/// One mapping of a buffer, by the identity of the buffer.
#[derive(Clone, Copy, Debug, PartialEq, Eq, Structural)]
pub struct Mapping {
    pub dev: u64,
    pub ino: u64,
    pub len: usize,
    pub addr: usize,
}

/// Mappings that are kept per buffer. The key is the identity of the buffer and
/// not the descriptor: descriptors are handed out anew, and their numbers are
/// used again for other buffers.
pub struct FdMmapCache {
    maps: Vec<Mapping>,
}

impl View for FdMmapCache {
    type V = Map<(u64, u64), (usize, usize)>;

    closed spec fn view(&self) -> Map<(u64, u64), (usize, usize)> {
        Map::new(
            |key: (u64, u64)| listed(self.maps@, key) is Some,
            |key: (u64, u64)|
                {
                    let m = listed(self.maps@, key)->Some_0;
                    (m.addr, m.len)
                },
        )
    }
}

/// The mapping of a buffer, where the list has one.
spec fn listed(maps: Seq<Mapping>, key: (u64, u64)) -> Option<Mapping>
    decreases maps.len(),
{
    if maps.len() == 0 {
        None
    } else if (maps.last().dev, maps.last().ino) == key {
        Some(maps.last())
    } else {
        listed(maps.drop_last(), key)
    }
}

proof fn lemma_listed(maps: Seq<Mapping>, key: (u64, u64))
    ensures
        listed(maps, key) is None <==> forall|i: int|
            0 <= i < maps.len() ==> ((#[trigger] maps[i]).dev, maps[i].ino) != key,
    decreases maps.len(),
{
    if maps.len() > 0 {
        let front = maps.drop_last();
        lemma_listed(front, key);
        assert(maps.last() == maps[maps.len() - 1]);
        if (maps.last().dev, maps.last().ino) != key {
            if listed(front, key) is None {
                assert forall|i: int| 0 <= i < maps.len() implies ((#[trigger] maps[i]).dev, maps[i].ino)
                    != key by {
                    if i < front.len() {
                        assert(front[i] == maps[i]);
                    }
                }
            } else {
                let i = choose|i: int|
                    0 <= i < front.len() && ((#[trigger] front[i]).dev, front[i].ino) == key;
                assert(maps[i] == front[i]);
            }
        }
    }
}

proof fn lemma_listed_at(maps: Seq<Mapping>, at: int)
    requires
        0 <= at < maps.len(),
        forall|i: int| at < i < maps.len() ==> ((#[trigger] maps[i]).dev, maps[i].ino) != (
            maps[at].dev,
            maps[at].ino,
        ),
    ensures
        listed(maps, (maps[at].dev, maps[at].ino)) == Some(maps[at]),
    decreases maps.len(),
{
    if at < maps.len() - 1 {
        let front = maps.drop_last();
        assert(maps.last() == maps[maps.len() - 1]);
        assert forall|i: int| at < i < front.len() implies ((#[trigger] front[i]).dev, front[i].ino)
            != (front[at].dev, front[at].ino) by {
            assert(front[i] == maps[i]);
        }
        lemma_listed_at(front, at);
    }
}

impl FdMmapCache {
    pub fn new() -> (r: Self)
        ensures
            r@ == Map::<(u64, u64), (usize, usize)>::empty(),
    {
        let r = FdMmapCache { maps: Vec::new() };
        assert(r@ =~= Map::<(u64, u64), (usize, usize)>::empty());
        r
    }

    /// Address and length of the mapping of a buffer. A buffer that is not
    /// mapped yet is mapped by `mmap`, to which the length goes; the mapping is
    /// kept. One that is mapped keeps the mapping and the length it has.
    pub fn map<M: FnOnce(usize) -> Option<usize>>(
        &mut self,
        dev: u64,
        ino: u64,
        len: usize,
        mmap: M,
    ) -> (r: Option<(usize, usize)>)
        requires
            !old(self)@.contains_key((dev, ino)) ==> call_requires(mmap, (len,)),
        ensures
            old(self)@.contains_key((dev, ino)) ==> r == Some(old(self)@[(dev, ino)])
                && final(self)@ == old(self)@,
            !old(self)@.contains_key((dev, ino)) ==> exists|addr: Option<usize>| #[trigger]
                call_ensures(mmap, (len,), addr) && (match addr {
                    Some(a) => r == Some((a, len)) && final(self)@ == old(self)@.insert(
                        (dev, ino),
                        (a, len),
                    ),
                    None => r is None && final(self)@ == old(self)@,
                }),
    {
        let ghost key = (dev, ino);
        proof {
            lemma_listed(self.maps@, key);
        }
        let mut i: usize = self.maps.len();
        while i > 0
            invariant
                i <= self.maps@.len(),
                key == (dev, ino),
                self.maps@ == old(self).maps@,
                !old(self)@.contains_key(key) ==> call_requires(mmap, (len,)),
                forall|k: int|
                    i <= k < self.maps@.len() ==> ((#[trigger] self.maps@[k]).dev, self.maps@[k].ino)
                        != key,
                listed(self.maps@, key) is None <==> forall|k: int|
                    0 <= k < self.maps@.len() ==> ((#[trigger] self.maps@[k]).dev, self.maps@[k].ino)
                        != key,
            decreases i,
        {
            let m: Mapping = self.maps[i - 1];
            if m.dev == dev && m.ino == ino {
                proof {
                    lemma_listed_at(self.maps@, i - 1);
                    assert(old(self)@.contains_key(key));
                }
                return Some((m.addr, m.len));
            }
            i = i - 1;
        }
        assert(!old(self)@.contains_key(key));
        let mapped = mmap(len);
        match mapped {
            Some(addr) => {
                self.maps.push(Mapping { dev, ino, len, addr });
                proof {
                    let now = self.maps@;
                    assert(now.drop_last() =~= old(self).maps@);
                    assert(self@ =~= old(self)@.insert(key, (addr, len)));
                }
                Some((addr, len))
            },
            None => None,
        }
    }
}

/// What to do about the window when the surface is set.
#[derive(Clone, Copy, Debug, PartialEq, Eq, Structural)]
pub struct SurfaceAction {
    /// Give this window back.
    pub release: Option<usize>,
    /// Keep the new window.
    pub acquire: bool,
    /// Set the format of the new window.
    pub set_format: bool,
}

/// The window that is held, by its address.
#[derive(Clone, Copy, Debug, PartialEq, Eq, Structural)]
pub struct WindowSlot {
    pub window: Option<usize>,
}

impl WindowSlot {
    /// The window to give back, if one is held.
    pub open spec fn held(self) -> Option<usize> {
        match self.window {
            Some(w) if w != 0 => Some(w),
            _ => None,
        }
    }

    pub fn new() -> (r: Self)
        ensures
            r.window is None,
    {
        WindowSlot { window: None }
    }

    /// The window that can be drawn to.
    pub fn current(&self) -> (r: Option<usize>)
        ensures
            r == self.held(),
    {
        match self.window {
            Some(w) => if w != 0 {
                Some(w)
            } else {
                None
            },
            None => None,
        }
    }

    /// The surface is gone.
    pub fn clear(&mut self) -> (r: SurfaceAction)
        ensures
            r == (SurfaceAction { release: old(self).held(), acquire: false, set_format: false }),
            final(self).window is None,
    {
        let release: Option<usize> = self.current();
        self.window = None;
        SurfaceAction { release, acquire: false, set_format: false }
    }

    /// There is a surface; `window` is its window, zero if it has none. The
    /// window that is held already is neither given back nor taken again, which
    /// would tear down its buffers: only its format is set.
    pub fn set_surface(&mut self, window: usize) -> (r: SurfaceAction)
        ensures
            window == 0 ==> *final(self) == *old(self) && r == (SurfaceAction {
                release: None,
                acquire: false,
                set_format: false,
            }),
            window != 0 && old(self).window == Some(window) ==> *final(self) == *old(self) && r
                == (SurfaceAction { release: None, acquire: false, set_format: true }),
            window != 0 && old(self).window != Some(window) ==> final(self).window == Some(window)
                && r == (SurfaceAction {
                release: old(self).held(),
                acquire: true,
                set_format: true,
            }),
    {
        if window == 0 {
            return SurfaceAction { release: None, acquire: false, set_format: false };
        }
        if let Some(w) = self.window {
            if w == window {
                return SurfaceAction { release: None, acquire: false, set_format: true };
            }
        }
        let release: Option<usize> = self.current();
        self.window = Some(window);
        SurfaceAction { release, acquire: true, set_format: true }
    }
}

/// Bytes between the rows, and below the last one, are never written.
pub proof fn lemma_gaps_are_untouched(
    dst: Seq<u8>,
    dst_stride: int,
    src: Seq<u8>,
    src_stride: int,
    row_bytes: int,
    rows: nat,
    at: int,
)
    requires
        0 <= at < dst.len(),
        forall|y: int|
            0 <= y < rows ==> !(#[trigger] (y * dst_stride) <= at < y * dst_stride + row_bytes),
    ensures
        rows_copied(dst, dst_stride, src, src_stride, row_bytes, rows).len() == dst.len(),
        rows_copied(dst, dst_stride, src, src_stride, row_bytes, rows)[at] == dst[at],
    decreases rows,
{
    lemma_rows_keep_len(dst, dst_stride, src, src_stride, row_bytes, rows);
    if rows > 0 {
        let last = (rows - 1) as nat;
        lemma_rows_keep_len(dst, dst_stride, src, src_stride, row_bytes, last);
        lemma_gaps_are_untouched(dst, dst_stride, src, src_stride, row_bytes, last, at);
        let y = rows - 1;
        assert(!(y * dst_stride <= at < y * dst_stride + row_bytes));
    }
}

/// Something is reported as cut exactly if some row does not lie whole in both
/// buffers.
pub proof fn lemma_cut_is_reported(
    dst_len: int,
    dst_stride: int,
    src_len: int,
    src_stride: int,
    row_bytes: int,
    rows: int,
)
    requires
        row_bytes > 0,
    ensures
        any_row_cut(dst_len, dst_stride, src_len, src_stride, row_bytes, rows) <==> exists|y: int|
            0 <= y < rows && (#[trigger] (y * src_stride) + row_bytes > src_len || y * dst_stride
                + row_bytes > dst_len),
{
    assert forall|y: int| #[trigger]
        row_cut(dst_len, dst_stride, src_len, src_stride, row_bytes, y) <==> y * src_stride
            + row_bytes > src_len || y * dst_stride + row_bytes > dst_len by {
    }
    if any_row_cut(dst_len, dst_stride, src_len, src_stride, row_bytes, rows) {
        let y = choose|y: int|
            0 <= y < rows && #[trigger] row_cut(
                dst_len,
                dst_stride,
                src_len,
                src_stride,
                row_bytes,
                y,
            );
        assert(y * src_stride + row_bytes > src_len || y * dst_stride + row_bytes > dst_len);
    }
    if exists|y: int|
        0 <= y < rows && (#[trigger] (y * src_stride) + row_bytes > src_len || y * dst_stride
            + row_bytes > dst_len) {
        let y = choose|y: int|
            0 <= y < rows && (#[trigger] (y * src_stride) + row_bytes > src_len || y * dst_stride
                + row_bytes > dst_len);
        assert(row_cut(dst_len, dst_stride, src_len, src_stride, row_bytes, y));
    }
}

/// The smaller of two is one of them, and not larger than either.
pub proof fn lemma_min_int(a: int, b: int)
    ensures
        min_int(a, b) <= a,
        min_int(a, b) <= b,
        min_int(a, b) == a || min_int(a, b) == b,
{
}

/// A window is held by its address, and zero is none.
pub proof fn lemma_held_window(s: WindowSlot, w: usize)
    ensures
        s.held() == Some(w) <==> s.window == Some(w) && w != 0,
{
}

} // verus!
