//! DMA-BUF attributes of a compositor buffer.

use vstd::prelude::*;
use crate::protocol::FrameMessage;

verus! {

pub const WLR_DMABUF_MAX_PLANES: usize = 4;

/// What the compositor tells about a buffer.
#[derive(Clone, Copy, Debug)]
#[allow(non_camel_case_types)]
pub struct wlr_dmabuf_attributes {
    pub width: i32,
    pub height: i32,
    pub format: u32,
    pub n_planes: u32,
    pub fd: [i32; 4],
    pub offset: [u32; 4],
    pub stride: [u32; 4],
    pub modifier: u64,
}

#[derive(Clone, Copy, Debug, PartialEq, Eq, Structural)]
pub struct BufferMeta {
    pub width: u32,
    pub height: u32,
    pub format: u32,
    /// Stride of the first plane, zero without planes.
    pub stride: u32,
    pub num_planes: u32,
}

/// Why the planes of a buffer cannot be handed on.
#[derive(Clone, Copy, Debug, PartialEq, Eq, Structural)]
pub enum DmabufError {
    InvalidPlaneCount,
    InvalidFd { plane: usize },
}

/// How many planes to hand on: one to four.
pub fn plane_count(attribs: &wlr_dmabuf_attributes) -> (r: Result<usize, DmabufError>)
    ensures
        r == (if 0 < attribs.n_planes <= WLR_DMABUF_MAX_PLANES {
            Ok::<usize, DmabufError>(attribs.n_planes as usize)
        } else {
            Err(DmabufError::InvalidPlaneCount)
        }),
{
    let count: usize = attribs.n_planes as usize;
    if count == 0 || count > WLR_DMABUF_MAX_PLANES {
        return Err(DmabufError::InvalidPlaneCount);
    }
    Ok(count)
}

/// The descriptor of one plane.
pub fn plane_fd(attribs: &wlr_dmabuf_attributes, plane: usize) -> (r: Result<i32, DmabufError>)
    requires
        plane < WLR_DMABUF_MAX_PLANES,
    ensures
        r == (if attribs.fd@[plane as int] < 0 {
            Err::<i32, DmabufError>(DmabufError::InvalidFd { plane })
        } else {
            Ok(attribs.fd@[plane as int])
        }),
{
    let fd: i32 = attribs.fd[plane];
    if fd < 0 {
        Err(DmabufError::InvalidFd { plane })
    } else {
        Ok(fd)
    }
}

/// `dup` can have succeeded on `fd`.
pub open spec fn hands_out<T, E, D: Fn(i32) -> Result<T, E>>(dup: D, fd: i32) -> bool {
    exists|t: T| #[trigger] call_ensures(dup, (fd,), Ok::<T, E>(t))
}

/// Plane `i` has its turn: the planes are countable, none up to it is without a
/// descriptor, and all before it were handed out.
pub open spec fn is_due<T, E, D: Fn(i32) -> Result<T, E>>(
    attribs: wlr_dmabuf_attributes,
    dup: D,
    i: int,
) -> bool {
    &&& 0 <= i < attribs.n_planes <= WLR_DMABUF_MAX_PLANES
    &&& forall|k: int| 0 <= k <= i ==> #[trigger] attribs.fd@[k] >= 0
    &&& forall|k: int| 0 <= k < i ==> hands_out::<T, E, D>(dup, #[trigger] attribs.fd@[k])
}

/// What extracting the descriptors of a buffer comes to: all of its planes in
/// order, or why the first one that has none is without.
pub open spec fn extracts<T, E, D: Fn(i32) -> Result<T, E>>(
    attribs: wlr_dmabuf_attributes,
    dup: D,
    r: Result<Vec<T>, ExtractError<E>>,
) -> bool {
    &&& r matches Ok(fds) ==> {
        &&& 0 < attribs.n_planes <= WLR_DMABUF_MAX_PLANES
        &&& fds@.len() == attribs.n_planes
        &&& forall|i: int|
            0 <= i < fds@.len() ==> attribs.fd@[i] >= 0 && call_ensures(
                dup,
                (attribs.fd@[i],),
                Ok(#[trigger] fds@[i]),
            )
    }
    &&& (r matches Err(ExtractError::Attributes(DmabufError::InvalidPlaneCount))) <==> !(0
        < attribs.n_planes <= WLR_DMABUF_MAX_PLANES)
    &&& r matches Err(ExtractError::Attributes(DmabufError::InvalidFd { plane })) ==> {
        &&& plane < attribs.n_planes
        &&& attribs.fd@[plane as int] < 0
        &&& forall|i: int| 0 <= i < plane ==> #[trigger] attribs.fd@[i] >= 0
        &&& forall|k: int|
            0 <= k < plane ==> hands_out::<T, E, D>(dup, #[trigger] attribs.fd@[k])
    }
    &&& r matches Err(ExtractError::Dup(e)) ==> exists|i: int|
        {
            &&& 0 <= i < attribs.n_planes
            &&& call_ensures(dup, (#[trigger] attribs.fd@[i],), Err::<T, E>(e))
            &&& forall|k: int| 0 <= k <= i ==> #[trigger] attribs.fd@[k] >= 0
            &&& forall|k: int|
                0 <= k < i ==> hands_out::<T, E, D>(dup, #[trigger] attribs.fd@[k])
        }
}

/// The descriptors of all planes, each handed out by `dup`. Stops at the first
/// plane that has none.
pub fn extract_dmabuf_fds<T, E, D: Fn(i32) -> Result<T, E>>(
    attribs: &wlr_dmabuf_attributes,
    dup: D,
) -> (r: Result<Vec<T>, ExtractError<E>>)
    requires
        forall|i: int|
            is_due::<T, E, D>(*attribs, dup, i) ==> call_requires(
                dup,
                (#[trigger] attribs.fd@[i],),
            ),
    ensures
        extracts(*attribs, dup, r),
{
    let count: usize = match plane_count(attribs) {
        Ok(count) => count,
        Err(e) => {
            return Err(ExtractError::Attributes(e));
        },
    };
    let mut fds: Vec<T> = Vec::with_capacity(count);
    let mut i: usize = 0;
    while i < count
        invariant
            i <= count,
            0 < count <= WLR_DMABUF_MAX_PLANES,
            count == attribs.n_planes,
            fds@.len() == i,
            forall|k: int|
                is_due::<T, E, D>(*attribs, dup, k) ==> call_requires(
                    dup,
                    (#[trigger] attribs.fd@[k],),
                ),
            forall|k: int| 0 <= k < i ==> #[trigger] attribs.fd@[k] >= 0,
            forall|k: int|
                0 <= k < i ==> call_ensures(dup, (attribs.fd@[k],), Ok(#[trigger] fds@[k])),
            forall|k: int| 0 <= k < i ==> hands_out::<T, E, D>(dup, #[trigger] attribs.fd@[k]),
        decreases count - i,
    {
        match plane_fd(attribs, i) {
            Ok(fd) => match dup(fd) {
                Ok(duped) => {
                    fds.push(duped);
                },
                Err(e) => {
                    return Err(ExtractError::Dup(e));
                },
            },
            Err(e) => {
                return Err(ExtractError::Attributes(e));
            },
        }
        i += 1;
    }
    Ok(fds)
}

/// Why descriptors could not be extracted.
#[derive(Debug)]
pub enum ExtractError<E> {
    Attributes(DmabufError),
    Dup(E),
}

/// The metadata of a buffer.
pub fn buffer_metadata(attribs: &wlr_dmabuf_attributes) -> (r: BufferMeta)
    ensures
        r == (BufferMeta {
            width: attribs.width as u32,
            height: attribs.height as u32,
            format: attribs.format,
            stride: if attribs.n_planes > 0 {
                attribs.stride@[0]
            } else {
                0
            },
            num_planes: attribs.n_planes,
        }),
{
    let stride: u32 = if attribs.n_planes > 0 {
        attribs.stride[0]
    } else {
        0
    };
    BufferMeta {
        width: #[verifier::truncate]
        (attribs.width as u32),
        height: #[verifier::truncate]
        (attribs.height as u32),
        format: attribs.format,
        stride,
        num_planes: attribs.n_planes,
    }
}

/// Numbers the frames of one backend, from one.
pub struct LandBackend {
    serial_counter: u64,
}

impl View for LandBackend {
    type V = u64;

    closed spec fn view(&self) -> u64 {
        self.serial_counter
    }
}

/// Why a submitted buffer is not announced.
#[derive(Debug)]
pub enum SubmitError<E> {
    /// The buffer cannot be exported.
    NotDmabuf,
    Extract(ExtractError<E>),
}

impl LandBackend {
    /// A backend around a renderer; `None` around none.
    pub fn wrap(null_renderer: bool) -> (r: Option<Self>)
        ensures
            r is None <==> null_renderer,
            r matches Some(b) ==> b@ == 1,
    {
        if null_renderer {
            None
        } else {
            Some(LandBackend { serial_counter: 1 })
        }
    }

    /// The message that announces a submitted buffer, and the descriptors that
    /// go along. `attribs` is what the buffer tells of itself, `None` if it
    /// cannot be exported. Only announced buffers are numbered; the number after
    /// the largest one is zero.
    pub fn on_buffer_submit<T, E, D: Fn(i32) -> Result<T, E>>(
        &mut self,
        attribs: Option<wlr_dmabuf_attributes>,
        dup: D,
    ) -> (r: Result<(FrameMessage, Vec<T>), SubmitError<E>>)
        requires
            attribs matches Some(a) ==> forall|i: int|
                is_due::<T, E, D>(a, dup, i) ==> call_requires(dup, (#[trigger] a.fd@[i],)),
        ensures
            r matches Err(SubmitError::NotDmabuf) <==> attribs is None,
            r is Err ==> final(self)@ == old(self)@,
            attribs matches Some(a) ==> {
                &&& r matches Ok((m, fds)) ==> {
                    &&& extracts(a, dup, Ok(fds))
                    &&& m == (FrameMessage {
                        width: a.width as u32,
                        height: a.height as u32,
                        format: a.format,
                        stride: if a.n_planes > 0 {
                            a.stride@[0]
                        } else {
                            0
                        },
                        serial: old(self)@,
                    })
                    &&& final(self)@ == (if old(self)@ == u64::MAX {
                        0
                    } else {
                        (old(self)@ + 1) as u64
                    })
                }
                &&& r matches Err(SubmitError::Extract(e)) ==> extracts(a, dup, Err(e))
            },
    {
        let a = match attribs {
            Some(a) => a,
            None => {
                return Err(SubmitError::NotDmabuf);
            },
        };
        let meta = buffer_metadata(&a);
        match extract_dmabuf_fds(&a, dup) {
            Err(e) => Err(SubmitError::Extract(e)),
            Ok(fds) => {
                let serial: u64 = self.serial_counter;
                self.serial_counter = if serial == u64::MAX {
                    0
                } else {
                    serial + 1
                };
                Ok(
                    (
                        FrameMessage::new(meta.width, meta.height, meta.format, meta.stride, serial),
                        fds,
                    ),
                )
            },
        }
    }
}

/// Where extracting succeeds there is one descriptor for each plane, in order,
/// and each was handed out for that plane.
pub proof fn lemma_one_descriptor_per_plane<T, E, D: Fn(i32) -> Result<T, E>>(
    attribs: wlr_dmabuf_attributes,
    dup: D,
    fds: Vec<T>,
    i: int,
)
    requires
        extracts(attribs, dup, Ok::<Vec<T>, ExtractError<E>>(fds)),
        0 <= i < fds@.len(),
    ensures
        1 <= attribs.n_planes <= 4,
        fds@.len() == attribs.n_planes,
        attribs.fd@[i] >= 0,
        call_ensures(dup, (attribs.fd@[i],), Ok::<T, E>(fds@[i])),
{
    assert(call_ensures(dup, (attribs.fd@[i],), Ok::<T, E>(fds@[i])));
}

/// Extracting fails for a reason: a number of planes that cannot be, a plane
/// without a descriptor, or one that could not be handed out. A plane that is
/// blamed is the first with a fault.
pub proof fn lemma_first_fault_is_told<T, E, D: Fn(i32) -> Result<T, E>>(
    attribs: wlr_dmabuf_attributes,
    dup: D,
    e: ExtractError<E>,
)
    requires
        extracts(attribs, dup, Err::<Vec<T>, ExtractError<E>>(e)),
    ensures
        (e matches ExtractError::Attributes(DmabufError::InvalidPlaneCount)) <==> attribs.n_planes
            < 1 || attribs.n_planes > 4,
        e matches ExtractError::Attributes(DmabufError::InvalidFd { plane }) ==> plane
            < attribs.n_planes && attribs.fd@[plane as int] < 0 && forall|k: int|
            0 <= k < plane ==> #[trigger] attribs.fd@[k] >= 0 && hands_out::<T, E, D>(
                dup,
                attribs.fd@[k],
            ),
        e matches ExtractError::Dup(why) ==> exists|k: int|
            0 <= k < attribs.n_planes && call_ensures(
                dup,
                (#[trigger] attribs.fd@[k],),
                Err::<T, E>(why),
            ),
{
}

} // verus!
