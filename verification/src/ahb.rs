//! Hardware buffers as blit slots.

use vstd::prelude::*;
use crate::proto::{DRM_FORMAT_ABGR8888, DRM_FORMAT_XBGR8888};

verus! {

/// Four channels of eight bits.
pub const AHB_FORMAT_R8G8B8A8_UNORM: u32 = 1;

/// Four channels of eight bits, the last one unused.
pub const AHB_FORMAT_R8G8B8X8_UNORM: u32 = 2;

/// The format is one that slots support.
pub open spec fn supported(format: u32) -> bool {
    format == AHB_FORMAT_R8G8B8A8_UNORM || format == AHB_FORMAT_R8G8B8X8_UNORM
}

/// Bytes per pixel of a supported format. Nothing is guessed for others.
pub fn bytes_per_pixel(format: u32) -> (r: Option<u32>)
    ensures
        r == (if supported(format) {
            Some(4u32)
        } else {
            None
        }),
{
    if format == AHB_FORMAT_R8G8B8A8_UNORM || format == AHB_FORMAT_R8G8B8X8_UNORM {
        Some(4)
    } else {
        None
    }
}

/// The stride in bytes, from the stride in pixels that the system reports.
pub fn stride_bytes_from_desc(stride_pixels: u32, format: u32) -> (r: Option<u32>)
    requires
        supported(format) ==> stride_pixels * 4 <= u32::MAX,
    ensures
        r == (if supported(format) {
            Some((stride_pixels * 4) as u32)
        } else {
            None
        }),
{
    match bytes_per_pixel(format) {
        Some(bpp) => Some(stride_pixels * bpp),
        None => None,
    }
}

/// The DRM format of a hardware buffer format.
pub fn drm_format_for_ahb(format: u32) -> (r: Option<u32>)
    ensures
        r == (if format == AHB_FORMAT_R8G8B8A8_UNORM {
            Some(DRM_FORMAT_ABGR8888)
        } else if format == AHB_FORMAT_R8G8B8X8_UNORM {
            Some(DRM_FORMAT_XBGR8888)
        } else {
            None
        }),
{
    if format == AHB_FORMAT_R8G8B8A8_UNORM {
        Some(DRM_FORMAT_ABGR8888)
    } else if format == AHB_FORMAT_R8G8B8X8_UNORM {
        Some(DRM_FORMAT_XBGR8888)
    } else {
        None
    }
}

/// What a slot is registered with. The buffer itself follows as a handle.
#[derive(Clone, Copy, Debug, PartialEq, Eq, Structural)]
pub struct SlotBuffer {
    pub slot: u32,
    pub width: u32,
    pub height: u32,
    pub drm_format: u32,
    pub stride_bytes: u32,
}

pub fn slot_message(slot: u32, width: u32, height: u32, drm_format: u32, stride_bytes: u32) -> (r:
    SlotBuffer)
    ensures
        r == (SlotBuffer { slot, width, height, drm_format, stride_bytes }),
{
    SlotBuffer { slot, width, height, drm_format, stride_bytes }
}

/// One blit slot.
#[derive(Clone, Copy, Debug, PartialEq, Eq, Structural)]
pub struct AhbSlot {
    pub slot: u32,
    pub width: u32,
    pub height: u32,
    /// DRM format.
    pub format: u32,
    pub stride_bytes: u32,
}

impl AhbSlot {
    /// The slot for a buffer, from what the system reports of it. `None` for a
    /// format that is not supported. The geometry is the one asked for.
    pub fn from_ahb(slot: u32, width: u32, height: u32, desc_stride: u32, desc_format: u32) -> (r:
        Option<Self>)
        requires
            supported(desc_format) ==> desc_stride * 4 <= u32::MAX,
        ensures
            r is Some <==> supported(desc_format),
            r matches Some(s) ==> {
                &&& s.slot == slot && s.width == width && s.height == height
                &&& s.stride_bytes == desc_stride * 4
                &&& s.format == (if desc_format == AHB_FORMAT_R8G8B8A8_UNORM {
                    DRM_FORMAT_ABGR8888
                } else {
                    DRM_FORMAT_XBGR8888
                })
            },
    {
        match (stride_bytes_from_desc(desc_stride, desc_format), drm_format_for_ahb(desc_format)) {
            (Some(stride_bytes), Some(format)) => Some(
                AhbSlot { slot, width, height, format, stride_bytes },
            ),
            _ => None,
        }
    }

    pub fn to_tbuf_message(&self) -> (r: SlotBuffer)
        ensures
            r == (SlotBuffer {
                slot: self.slot,
                width: self.width,
                height: self.height,
                drm_format: self.format,
                stride_bytes: self.stride_bytes,
            }),
    {
        slot_message(self.slot, self.width, self.height, self.format, self.stride_bytes)
    }
}

/// Two formats are supported, those with four channels of eight bits.
pub proof fn lemma_supported_formats(format: u32)
    ensures
        supported(format) <==> format == 1 || format == 2,
{
}

} // verus!
