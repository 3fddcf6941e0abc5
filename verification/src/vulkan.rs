//! The swapchain of the textured-quad renderer.

use vstd::prelude::*;
use crate::probe::check_ext;
use crate::render::{
    find_memory_type, pick_device, pick_present_mode, Extent, QueueFamily, SurfaceFormat,
    COLOR_SPACE_SRGB_NONLINEAR, FORMAT_R8G8B8A8_SRGB, MAX_MEMORY_TYPES, MEMORY_DEVICE_LOCAL,
};

verus! {

/// All that the renderer's swapchain is created with.
#[derive(Clone, Copy, Debug, PartialEq, Eq, Structural)]
pub struct QuadSwapchain {
    pub format: SurfaceFormat,
    pub extent: Extent,
    pub present_mode: i32,
    pub image_count: u32,
}

pub open spec fn is_srgb(f: SurfaceFormat) -> bool {
    f.format == FORMAT_R8G8B8A8_SRGB && f.color_space == COLOR_SPACE_SRGB_NONLINEAR
}

/// The format at `i` is the one to use: the first sRGB one, or the first of all
/// where there is none.
pub open spec fn is_choice(formats: Seq<SurfaceFormat>, i: int) -> bool {
    &&& 0 <= i < formats.len()
    &&& if is_srgb(formats[i]) {
        forall|k: int| 0 <= k < i ==> !is_srgb(#[trigger] formats[k])
    } else {
        i == 0 && forall|k: int| 0 <= k < formats.len() ==> !is_srgb(#[trigger] formats[k])
    }
}

/// `t` is the first memory type local to the device that `bits` allow.
pub open spec fn first_local(flags: Seq<u32>, bits: u32, t: u32) -> bool {
    &&& t < flags.len()
    &&& crate::render::type_fits(flags, bits, MEMORY_DEVICE_LOCAL, t as int)
    &&& forall|k: int|
        0 <= k < t ==> !#[trigger] crate::render::type_fits(flags, bits, MEMORY_DEVICE_LOCAL, k)
}

fn pick_quad_format(formats: &[SurfaceFormat]) -> (r: usize)
    requires
        formats@.len() > 0,
    ensures
        is_choice(formats@, r as int),
{
    let n: usize = formats.len();
    let mut i: usize = 0;
    while i < n
        invariant
            i <= n,
            n == formats@.len(),
            forall|k: int| 0 <= k < i ==> !is_srgb(#[trigger] formats@[k]),
        decreases n - i,
    {
        let f: SurfaceFormat = formats[i];
        if f.format == FORMAT_R8G8B8A8_SRGB && f.color_space == COLOR_SPACE_SRGB_NONLINEAR {
            return i;
        }
        i += 1;
    }
    0
}

/// Why a frame is not drawn.
#[derive(Debug)]
pub enum QuadError<E> {
    /// The device was not set up to import frames.
    NoExternalMemory,
    NoMemoryType,
    /// The driver refuses.
    Device(E),
}

/// What the textured-quad renderer remembers of its device.
#[derive(Clone, Copy, Debug, PartialEq, Eq, Structural)]
pub struct VulkanRenderer {
    /// Frames can be imported.
    pub has_external_memory_fd: bool,
    /// The surface that is drawn to, by its handle.
    pub surface: Option<u64>,
}

impl VulkanRenderer {
    /// Picks the device and its queue family: the first that draws. `None`
    /// without one. Whether frames can be imported is not known yet.
    pub fn new(devices: &Vec<Vec<QueueFamily>>) -> (r: Option<(Self, usize, usize)>)
        ensures
            match r {
                Some((v, d, f)) => {
                    &&& v == (VulkanRenderer { has_external_memory_fd: false, surface: None })
                    &&& d < devices@.len()
                    &&& f < devices@[d as int]@.len()
                    &&& crate::render::family_fits(devices@[d as int]@[f as int], false)
                    &&& forall|k: int|
                        0 <= k < f ==> !crate::render::family_fits(
                            #[trigger] devices@[d as int]@[k],
                            false,
                        )
                    &&& forall|k: int|
                        0 <= k < d ==> !crate::render::has_family((#[trigger] devices@[k])@, false)
                },
                None => forall|k: int|
                    0 <= k < devices@.len() ==> !crate::render::has_family(
                        (#[trigger] devices@[k])@,
                        false,
                    ),
            },
    {
        match pick_device(devices, false) {
            Some((d, f)) => Some(
                (VulkanRenderer { has_external_memory_fd: false, surface: None }, d, f),
            ),
            None => None,
        }
    }

    /// The device is there and has `extensions`. Frames can be imported where
    /// memory can be shared by descriptor.
    pub fn device_ready(&mut self, extensions: &Vec<String>)
        ensures
            *final(self) == (VulkanRenderer {
                has_external_memory_fd: exists|i: int|
                    0 <= i < extensions@.len() && (#[trigger] extensions@[i])@
                        == "VK_KHR_external_memory_fd"@,
                ..*old(self)
            }),
    {
        self.has_external_memory_fd = check_ext("VK_KHR_external_memory_fd", extensions);
    }

    /// The surface that is to be destroyed when `new_surface` takes its place:
    /// the old one, unless it is the same.
    pub fn cleanup(&self, new_surface: Option<u64>) -> (r: Option<u64>)
        ensures
            r == (if self.surface is Some && new_surface != self.surface {
                self.surface
            } else {
                None
            }),
    {
        match self.surface {
            None => None,
            Some(s) => match new_surface {
                Some(n) => if n != s {
                    Some(s)
                } else {
                    None
                },
                None => Some(s),
            },
        }
    }

    /// The surface has a swapchain.
    pub fn surface_ready(&mut self, surface: u64)
        ensures
            *final(self) == (VulkanRenderer { surface: Some(surface), ..*old(self) }),
    {
        self.surface = Some(surface);
    }

    /// Draws one frame. `create` makes the image and reports the memory types
    /// that are allowed for it; `draw` gives it memory of a type that is local to
    /// the device and draws it, onto the surface if there is one.
    pub fn import_and_render<
        P,
        E,
        C: FnOnce() -> Result<(P, u32), E>,
        D: FnOnce(P, u32, bool) -> Result<(), E>,
    >(&self, flags: &[u32], create: C, draw: D) -> (r: Result<(), QuadError<E>>)
        requires
            flags@.len() <= MAX_MEMORY_TYPES,
            self.has_external_memory_fd ==> call_requires(create, ()),
            forall|p: P, bits: u32, t: u32|
                self.has_external_memory_fd && #[trigger] call_ensures(create, (), Ok((p, bits)))
                    && #[trigger] first_local(flags@, bits, t) ==> call_requires(
                    draw,
                    (p, t, self.surface is Some),
                ),
        ensures
            r matches Err(QuadError::NoExternalMemory) <==> !self.has_external_memory_fd,
            r matches Err(QuadError::NoMemoryType) ==> exists|p: P, bits: u32|
                #[trigger] call_ensures(create, (), Ok((p, bits))) && (forall|k: int|
                    0 <= k < flags@.len() ==> !#[trigger] crate::render::type_fits(
                        flags@,
                        bits,
                        MEMORY_DEVICE_LOCAL,
                        k,
                    )),
            r matches Err(QuadError::Device(e)) ==> call_ensures(create, (), Err(e)) || exists|
                p: P,
                bits: u32,
                t: u32,
            | #[trigger]
                call_ensures(create, (), Ok((p, bits))) && first_local(flags@, bits, t)
                    && #[trigger] call_ensures(draw, (p, t, self.surface is Some), Err(e)),
            r is Ok ==> exists|p: P, bits: u32, t: u32, done: Result<(), E>| #[trigger]
                call_ensures(create, (), Ok((p, bits))) && first_local(flags@, bits, t)
                    && #[trigger] call_ensures(draw, (p, t, self.surface is Some), done) && done is Ok,
    {
        if !self.has_external_memory_fd {
            return Err(QuadError::NoExternalMemory);
        }
        let (image, bits) = match create() {
            Ok(made) => made,
            Err(e) => {
                return Err(QuadError::Device(e));
            },
        };
        let t: u32 = match Self::find_mt(flags, bits, MEMORY_DEVICE_LOCAL) {
            Some(t) => t,
            None => {
                return Err(QuadError::NoMemoryType);
            },
        };
        assert(first_local(flags@, bits, t));
        match draw(image, t, self.surface.is_some()) {
            Ok(()) => Ok(()),
            Err(e) => Err(QuadError::Device(e)),
        }
    }

    /// Plans the swapchain for a surface. `w` and `h` are used where the surface
    /// reports no size, and count as one where they are zero.
    pub fn set_surface(
        formats: &[SurfaceFormat],
        modes: &[i32],
        current: Extent,
        min_image_count: u32,
        w: u32,
        h: u32,
    ) -> (r: QuadSwapchain)
        requires
            formats@.len() > 0,
            min_image_count < u32::MAX,
        ensures
            exists|i: int| #[trigger] is_choice(formats@, i) && r.format == formats@[i],
            r.extent == (if current.width != 0 {
                current
            } else {
                Extent {
                    width: if w == 0 {
                        1
                    } else {
                        w
                    },
                    height: if h == 0 {
                        1
                    } else {
                        h
                    },
                }
            }),
            r.present_mode == (if modes@.contains(crate::render::PRESENT_MODE_MAILBOX) {
                crate::render::PRESENT_MODE_MAILBOX
            } else {
                crate::render::PRESENT_MODE_FIFO
            }),
            r.image_count == min_image_count + 1,
    {
        let extent: Extent = if current.width != 0 {
            current
        } else {
            Extent {
                width: if w == 0 {
                    1
                } else {
                    w
                },
                height: if h == 0 {
                    1
                } else {
                    h
                },
            }
        };
        let i: usize = pick_quad_format(formats);
        QuadSwapchain {
            format: formats[i],
            extent,
            present_mode: pick_present_mode(modes),
            image_count: min_image_count + 1,
        }
    }

    /// The first memory type that fits.
    pub fn find_mt(flags: &[u32], filter: u32, req: u32) -> (r: Option<u32>)
        requires
            flags@.len() <= MAX_MEMORY_TYPES,
        ensures
            match r {
                Some(t) => {
                    &&& t < flags@.len()
                    &&& crate::render::type_fits(flags@, filter, req, t as int)
                    &&& forall|k: int|
                        0 <= k < t ==> !#[trigger] crate::render::type_fits(flags@, filter, req, k)
                },
                None => forall|k: int|
                    0 <= k < flags@.len() ==> !#[trigger] crate::render::type_fits(
                        flags@,
                        filter,
                        req,
                        k,
                    ),
            },
    {
        find_memory_type(flags, filter, req)
    }
}

/// The format is the first sRGB one that is offered, and the first of all only
/// where there is none.
pub proof fn lemma_choice_is_srgb(formats: Seq<SurfaceFormat>, i: int, k: int)
    requires
        is_choice(formats, i),
        0 <= k < formats.len(),
    ensures
        formats[k].format == 43 && formats[k].color_space == 0 ==> i <= k && formats[i].format == 43
            && formats[i].color_space == 0,
        formats[i].format != 43 || formats[i].color_space != 0 ==> i == 0,
{
    assert(is_srgb(formats[k]) <==> formats[k].format == 43 && formats[k].color_space == 0);
    assert(is_srgb(formats[i]) <==> formats[i].format == 43 && formats[i].color_space == 0);
}

/// The memory is allowed for the image and local to the device, and no type
/// before it is both.
pub proof fn lemma_first_local_is_first(flags: Seq<u32>, bits: u32, t: u32, k: u32)
    requires
        flags.len() <= 32,
        first_local(flags, bits, t),
        k < flags.len(),
    ensures
        (bits >> t) & 1 == 1 && flags[t as int] % 2 == 1,
        (bits >> k) & 1 == 1 && flags[k as int] % 2 == 1 ==> t <= k,
{
    let f = flags[t as int];
    let g = flags[k as int];
    assert(t < 32 ==> ((bits & (1u32 << t) != 0) <==> (bits >> t) & 1 == 1)) by (bit_vector);
    assert(k < 32 ==> ((bits & (1u32 << k) != 0) <==> (bits >> k) & 1 == 1)) by (bit_vector);
    assert(f & 1 == f % 2) by (bit_vector);
    assert(g & 1 == g % 2) by (bit_vector);
    if k < t && (bits >> k) & 1 == 1 && g % 2 == 1 {
        assert(crate::render::type_fits(flags, bits, MEMORY_DEVICE_LOCAL, k as int));
    }
}

} // verus!
