//! The one buffer that frames from shared memory are copied into. The memory
//! belongs to the caller, who hands its mapping in.

use vstd::prelude::*;
use crate::frame_cache::{copy_front, frame_bytes};

verus! {

pub struct FrameMem {
    size: usize,
    width: u32,
    height: u32,
}

/// Dimensions, and the bytes they take.
pub struct MemState {
    pub size: int,
    pub width: u32,
    pub height: u32,
}

impl View for FrameMem {
    type V = MemState;

    closed spec fn view(&self) -> MemState {
        MemState { size: self.size as int, width: self.width, height: self.height }
    }
}

impl MemState {
    pub open spec fn of(width: u32, height: u32) -> MemState {
        MemState { size: crate::frame_cache::frame_len(width, height), width, height }
    }
}

impl FrameMem {
    /// A buffer for frames of this size. A frame has at least one pixel:
    /// nothing smaller can be mapped.
    pub fn new(width: u32, height: u32) -> (r: Self)
        requires
            0 < crate::frame_cache::frame_len(width, height) <= usize::MAX,
        ensures
            r@ == MemState::of(width, height),
    {
        FrameMem { size: frame_bytes(width, height), width, height }
    }

    /// Bytes of the buffer.
    pub fn size(&self) -> (r: usize)
        ensures
            r == self@.size,
    {
        self.size
    }

    /// Whether a size takes another buffer than the present.
    pub fn needs_rebuild(&self, width: u32, height: u32) -> (r: bool)
        ensures
            r == !(self@.width == width && self@.height == height),
    {
        !(self.width == width && self.height == height)
    }

    /// Switches to another size. `rebuilt` says whether the caller has a buffer
    /// of that size; without one the old buffer stays and the switch fails.
    pub fn set_dimensions(&mut self, width: u32, height: u32, rebuilt: bool) -> (r: bool)
        requires
            0 < crate::frame_cache::frame_len(width, height) <= usize::MAX || (old(self)@.width
                == width && old(self)@.height == height),
        ensures
            r == (old(self)@.width == width && old(self)@.height == height || rebuilt),
            final(self)@ == (if (old(self)@.width == width && old(self)@.height == height)
                || !rebuilt {
                old(self)@
            } else {
                MemState::of(width, height)
            }),
    {
        if !self.needs_rebuild(width, height) {
            return true;
        }
        if !rebuilt {
            return false;
        }
        *self = FrameMem::new(width, height);
        true
    }

    /// Copies a whole frame into the buffer, whose memory is `map`. Fails, and
    /// changes nothing, when the pixels are no frame of that size or the buffer
    /// is too small for one.
    pub fn push(&self, pixels: &[u8], width: u32, height: u32, map: &mut [u8]) -> (r: bool)
        requires
            crate::frame_cache::frame_len(width, height) <= usize::MAX,
            old(map)@.len() == self@.size,
        ensures
            r == (pixels@.len() == crate::frame_cache::frame_len(width, height)
                && crate::frame_cache::frame_len(width, height) <= self@.size),
            final(map)@ == (if r {
                pixels@ + old(map)@.skip(pixels@.len() as int)
            } else {
                old(map)@
            }),
    {
        let needed: usize = frame_bytes(width, height);
        if pixels.len() != needed || self.size < needed {
            return false;
        }
        copy_front(map, pixels);
        true
    }
}

/// A frame that a commit brought, with the descriptor of its pixels.
#[derive(Debug)]
pub enum ExtractedFrame<F> {
    /// The client's own GPU buffer.
    Dmabuf { width: u32, height: u32, fd: F },
    /// Copied out of shared memory.
    Shm { width: u32, height: u32, fd: F },
}

impl<F> ExtractedFrame<F> {
    pub open spec fn dimensions(self) -> (u32, u32) {
        match self {
            ExtractedFrame::Dmabuf { width, height, .. } => (width, height),
            ExtractedFrame::Shm { width, height, .. } => (width, height),
        }
    }

    pub open spec fn pixels(self) -> F {
        match self {
            ExtractedFrame::Dmabuf { fd, .. } => fd,
            ExtractedFrame::Shm { fd, .. } => fd,
        }
    }

    pub fn size(&self) -> (r: (u32, u32))
        ensures
            r == self.dimensions(),
    {
        match self {
            ExtractedFrame::Dmabuf { width, height, .. } => (*width, *height),
            ExtractedFrame::Shm { width, height, .. } => (*width, *height),
        }
    }

    pub fn into_fd(self) -> (r: F)
        ensures
            r == self.pixels(),
    {
        match self {
            ExtractedFrame::Dmabuf { fd, .. } => fd,
            ExtractedFrame::Shm { fd, .. } => fd,
        }
    }
}

/// The frame in a GPU buffer: `fd` is a duplicate of its first plane, if that
/// could be had. Only a buffer without a layout modifier can be read by the App.
pub fn extract_dmabuf<F>(has_modifier: bool, width: u32, height: u32, fd: Option<F>) -> (r: Option<
    ExtractedFrame<F>,
>)
    ensures
        r == (if has_modifier || fd is None {
            None
        } else {
            Some(ExtractedFrame::Dmabuf { width, height, fd: fd->Some_0 })
        }),
{
    if has_modifier {
        return None;
    }
    match fd {
        Some(fd) => Some(ExtractedFrame::Dmabuf { width, height, fd }),
        None => None,
    }
}

/// The frame in shared memory: `fd` is a descriptor of the copy, if there is one.
pub fn extract_shm<F>(stride: i32, height: i32, fd: Option<F>) -> (r: Option<ExtractedFrame<F>>)
    ensures
        r == (if fd is None {
            None
        } else {
            Some(
                ExtractedFrame::Shm {
                    width: (stride as u32) / 4,
                    height: height as u32,
                    fd: fd->Some_0,
                },
            )
        }),
{
    let s: u32 = #[verifier::truncate]
    (stride as u32);
    let h: u32 = #[verifier::truncate]
    (height as u32);
    match fd {
        Some(fd) => Some(ExtractedFrame::Shm { width: s / 4, height: h, fd }),
        None => None,
    }
}

/// The size of a shared memory frame, from its stride in bytes and its height:
/// four bytes are one pixel. `None` for an empty one.
pub fn shm_frame_size(stride: i32, height: i32) -> (r: Option<(u32, u32)>)
    ensures
        r == (if stride == 0 || height == 0 {
            None::<(u32, u32)>
        } else {
            Some(((stride as u32) / 4, height as u32))
        }),
{
    if height == 0 || stride == 0 {
        return None;
    }
    let s: u32 = #[verifier::truncate]
    (stride as u32);
    let h: u32 = #[verifier::truncate]
    (height as u32);
    Some((s / 4, h))
}

/// A buffer for frames of some size has that size, and four bytes per pixel.
pub proof fn lemma_buffer_fits_a_frame(width: u32, height: u32)
    ensures
        MemState::of(width, height).width == width,
        MemState::of(width, height).height == height,
        MemState::of(width, height).size == 4 * (width as int) * (height as int),
{
    crate::frame_cache::lemma_four_bytes_per_pixel(width, height);
}

/// A frame tells the size and the pixels that it was made with, whatever kind it
/// is.
pub proof fn lemma_frame_tells_its_size<F>(width: u32, height: u32, fd: F)
    ensures
        (ExtractedFrame::Dmabuf { width, height, fd }).dimensions() == (width, height),
        (ExtractedFrame::Shm { width, height, fd }).dimensions() == (width, height),
        (ExtractedFrame::Dmabuf { width, height, fd }).pixels() == fd,
        (ExtractedFrame::Shm { width, height, fd }).pixels() == fd,
{
}

} // verus!
