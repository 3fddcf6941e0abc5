//! Vulkan choices: devices, formats, sizes, memory, and what to do about each
//! outcome of the driver. Flags and codes are Vulkan's own numbers.

use std::collections::HashSet;
use vstd::prelude::*;
use vstd::std_specs::hash::*;

verus! {

broadcast use vstd::std_specs::hash::group_hash_axioms;

pub const FORMAT_UNDEFINED: i32 = 0;

pub const FORMAT_R8G8B8A8_UNORM: i32 = 37;

pub const FORMAT_R8G8B8A8_SRGB: i32 = 43;

pub const FORMAT_B8G8R8A8_UNORM: i32 = 44;

pub const COLOR_SPACE_SRGB_NONLINEAR: i32 = 0;

pub const PRESENT_MODE_MAILBOX: i32 = 1;

pub const PRESENT_MODE_FIFO: i32 = 2;

pub const USAGE_TRANSFER_DST: u32 = 0x2;

pub const USAGE_COLOR_ATTACHMENT: u32 = 0x10;

/// The two usages that swapchain images are for.
pub const USAGE_WANTED: u32 = 0x12;

pub const ALPHA_OPAQUE: u32 = 0x1;

pub const ALPHA_INHERIT: u32 = 0x8;

pub const QUEUE_GRAPHICS: u32 = 0x1;

pub const MEMORY_DEVICE_LOCAL: u32 = 0x1;

/// Most memory types that a device has.
pub const MAX_MEMORY_TYPES: usize = 32;

/// Images that a swapchain is asked for.
pub const TARGET_IMAGE_COUNT: u32 = 3;

const POLLIN: i32 = 1;

const EINTR: i32 = 4;

#[derive(Clone, Copy, Debug, PartialEq, Eq, Structural)]
pub struct SurfaceFormat {
    pub format: i32,
    pub color_space: i32,
}

#[derive(Clone, Copy, Debug, PartialEq, Eq, Structural)]
pub struct Extent {
    pub width: u32,
    pub height: u32,
}

/// What a surface can do.
#[derive(Clone, Copy, Debug, PartialEq, Eq, Structural)]
pub struct SurfaceCaps {
    pub min_image_count: u32,
    /// Zero: no limit.
    pub max_image_count: u32,
    /// The largest width there is: the size is up to the swapchain.
    pub current_extent: Extent,
    pub min_image_extent: Extent,
    pub max_image_extent: Extent,
    pub supported_usage: u32,
    pub supported_alpha: u32,
}

impl SurfaceCaps {
    /// Where the size is up to the swapchain, the bounds on it are in order.
    pub open spec fn sizes_in_order(self) -> bool {
        self.current_extent.width == u32::MAX ==> {
            &&& self.min_image_extent.width <= self.max_image_extent.width
            &&& self.min_image_extent.height <= self.max_image_extent.height
        }
    }

    /// The bounds on the number of images are in order.
    pub open spec fn counts_in_order(self) -> bool {
        self.max_image_count == 0 || self.min_image_count <= self.max_image_count
    }
}

/// The first entry of a format in the wanted colour space.
pub open spec fn first_of(formats: Seq<SurfaceFormat>, format: i32) -> Option<SurfaceFormat>
    decreases formats.len(),
{
    if formats.len() == 0 {
        None
    } else if formats[0].format == format && formats[0].color_space == COLOR_SPACE_SRGB_NONLINEAR {
        Some(formats[0])
    } else {
        first_of(formats.drop_first(), format)
    }
}

/// No constraint is stated.
pub open spec fn unconstrained(formats: Seq<SurfaceFormat>) -> bool {
    formats.len() == 0 || (formats.len() == 1 && formats[0].format == FORMAT_UNDEFINED)
}

/// BGRA in the wanted colour space, else RGBA in it, else whatever comes first.
pub open spec fn preferred(formats: Seq<SurfaceFormat>) -> SurfaceFormat {
    if unconstrained(formats) {
        SurfaceFormat {
            format: FORMAT_B8G8R8A8_UNORM,
            color_space: COLOR_SPACE_SRGB_NONLINEAR,
        }
    } else if first_of(formats, FORMAT_B8G8R8A8_UNORM) is Some {
        first_of(formats, FORMAT_B8G8R8A8_UNORM)->Some_0
    } else if first_of(formats, FORMAT_R8G8B8A8_UNORM) is Some {
        first_of(formats, FORMAT_R8G8B8A8_UNORM)->Some_0
    } else {
        formats[0]
    }
}

fn find_format(formats: &[SurfaceFormat], format: i32) -> (r: Option<SurfaceFormat>)
    ensures
        r == first_of(formats@, format),
{
    let n: usize = formats.len();
    let mut i: usize = 0;
    assert(formats@.skip(0) =~= formats@);
    while i < n
        invariant
            i <= n,
            n == formats@.len(),
            first_of(formats@, format) == first_of(formats@.skip(i as int), format),
        decreases n - i,
    {
        let f: SurfaceFormat = formats[i];
        assert(formats@.skip(i as int)[0] == f);
        assert(formats@.skip(i as int).drop_first() =~= formats@.skip(i + 1));
        if f.format == format && f.color_space == COLOR_SPACE_SRGB_NONLINEAR {
            return Some(f);
        }
        i += 1;
    }
    assert(formats@.skip(n as int) =~= seq![]);
    None
}

/// The format of the swapchain.
pub fn pick_format(formats: &[SurfaceFormat]) -> (r: SurfaceFormat)
    ensures
        r == preferred(formats@),
{
    if formats.len() == 0 || (formats.len() == 1 && formats[0].format == FORMAT_UNDEFINED) {
        return SurfaceFormat {
            format: FORMAT_B8G8R8A8_UNORM,
            color_space: COLOR_SPACE_SRGB_NONLINEAR,
        };
    }
    if let Some(f) = find_format(formats, FORMAT_B8G8R8A8_UNORM) {
        return f;
    }
    if let Some(f) = find_format(formats, FORMAT_R8G8B8A8_UNORM) {
        return f;
    }
    formats[0]
}

/// Mailbox where there is one; FIFO is always there.
pub fn pick_present_mode(modes: &[i32]) -> (r: i32)
    ensures
        r == (if modes@.contains(PRESENT_MODE_MAILBOX) {
            PRESENT_MODE_MAILBOX
        } else {
            PRESENT_MODE_FIFO
        }),
{
    let n: usize = modes.len();
    let mut i: usize = 0;
    while i < n
        invariant
            i <= n,
            n == modes@.len(),
            forall|k: int| 0 <= k < i ==> modes@[k] != PRESENT_MODE_MAILBOX,
        decreases n - i,
    {
        if modes[i] == PRESENT_MODE_MAILBOX {
            assert(modes@.contains(PRESENT_MODE_MAILBOX));
            return PRESENT_MODE_MAILBOX;
        }
        i += 1;
    }
    PRESENT_MODE_FIFO
}

pub open spec fn clamped(v: u32, low: u32, high: u32) -> u32 {
    if v < low {
        low
    } else if v > high {
        high
    } else {
        v
    }
}

fn clamp_u32(v: u32, low: u32, high: u32) -> (r: u32)
    requires
        low <= high,
    ensures
        r == clamped(v, low, high),
{
    if v < low {
        low
    } else if v > high {
        high
    } else {
        v
    }
}

/// The size of the swapchain: the surface's own, or one within its bounds where
/// it leaves the choice.
pub fn clamp_extent(caps: &SurfaceCaps) -> (r: Extent)
    requires
        caps.sizes_in_order(),
    ensures
        r == (if caps.current_extent.width != u32::MAX {
            caps.current_extent
        } else {
            Extent {
                width: caps.max_image_extent.width,
                height: clamped(
                    caps.current_extent.height,
                    caps.min_image_extent.height,
                    caps.max_image_extent.height,
                ),
            }
        }),
{
    if caps.current_extent.width != u32::MAX {
        caps.current_extent
    } else {
        Extent {
            width: clamp_u32(
                caps.current_extent.width,
                caps.min_image_extent.width,
                caps.max_image_extent.width,
            ),
            height: clamp_u32(
                caps.current_extent.height,
                caps.min_image_extent.height,
                caps.max_image_extent.height,
            ),
        }
    }
}

/// How many images to ask for: three, as far as the surface allows.
pub fn pick_image_count(caps: &SurfaceCaps) -> (r: u32)
    requires
        caps.counts_in_order(),
    ensures
        r == clamped(
            TARGET_IMAGE_COUNT,
            caps.min_image_count,
            if caps.max_image_count == 0 {
                u32::MAX
            } else {
                caps.max_image_count
            },
        ),
{
    let max: u32 = if caps.max_image_count == 0 {
        u32::MAX
    } else {
        caps.max_image_count
    };
    clamp_u32(TARGET_IMAGE_COUNT, caps.min_image_count, max)
}

/// `r` is the lowest bit that is set in `flags`.
pub open spec fn is_lowest_bit(flags: u32, r: u32) -> bool {
    exists|i: u32|
        #![trigger 1u32 << i]
        i < 32 && r == 1u32 << i && flags & (1u32 << i) != 0 && (forall|k: u32|
            #![trigger 1u32 << k]
            k < i ==> flags & (1u32 << k) == 0)
}

/// Opaque if possible, else inherited, else the first that is offered. Where
/// nothing is offered, opaque too.
pub fn pick_composite_alpha(supported: u32) -> (r: u32)
    ensures
        supported & ALPHA_OPAQUE != 0 || supported == 0 ==> r == ALPHA_OPAQUE,
        supported & ALPHA_OPAQUE == 0 && supported & ALPHA_INHERIT != 0 ==> r == ALPHA_INHERIT,
        supported & ALPHA_OPAQUE == 0 && supported & ALPHA_INHERIT == 0 && supported != 0
            ==> is_lowest_bit(supported, r),
{
    assert(supported == 0 ==> supported & 1 == 0 && supported & 8 == 0) by (bit_vector);
    if supported & ALPHA_OPAQUE != 0 {
        return ALPHA_OPAQUE;
    }
    if supported & ALPHA_INHERIT != 0 {
        return ALPHA_INHERIT;
    }
    if supported == 0 {
        return ALPHA_OPAQUE;
    }
    let mut i: u32 = 0;
    assert(supported & (((1u64 << 0u32) - 1) as u32) == 0) by (bit_vector);
    while i < 32
        invariant
            i <= 32,
            supported != 0,
            supported & ALPHA_OPAQUE == 0,
            supported & ALPHA_INHERIT == 0,
            supported & (((1u64 << i) - 1) as u32) == 0,
            forall|k: u32| #![trigger 1u32 << k] k < i ==> supported & (1u32 << k) == 0,
        decreases 32 - i,
    {
        if supported & (1u32 << i) != 0 {
            assert(is_lowest_bit(supported, 1u32 << i));
            return 1u32 << i;
        }
        assert(supported & (((1u64 << ((i + 1) as u32)) - 1) as u32) == 0) by (bit_vector)
            requires
                i < 32,
                supported & (((1u64 << i) - 1) as u32) == 0,
                supported & (1u32 << i) == 0,
        ;
        i += 1;
    }
    assert(supported == 0) by (bit_vector)
        requires
            supported & (((1u64 << 32u32) - 1) as u32) == 0,
    ;
    ALPHA_OPAQUE
}

/// Of the wanted usages, those that the surface supports.
pub fn pick_image_usage(supported: u32) -> (r: u32)
    ensures
        r == supported & USAGE_WANTED,
        r & USAGE_COLOR_ATTACHMENT == supported & USAGE_COLOR_ATTACHMENT,
        r & USAGE_TRANSFER_DST == supported & USAGE_TRANSFER_DST,
{
    assert((supported & 0x12) & 0x10 == supported & 0x10) by (bit_vector);
    assert((supported & 0x12) & 0x2 == supported & 0x2) by (bit_vector);
    supported & USAGE_WANTED
}

/// All that a swapchain is created with.
#[derive(Clone, Copy, Debug, PartialEq, Eq, Structural)]
pub struct SwapchainPlan {
    pub format: SurfaceFormat,
    pub present_mode: i32,
    pub extent: Extent,
    pub image_count: u32,
    pub usage: u32,
    pub composite_alpha: u32,
}

/// Why there can be no swapchain.
#[derive(Clone, Copy, Debug, PartialEq, Eq, Structural)]
pub enum SwapchainError {
    /// The surface has no area.
    ZeroExtent,
    /// The surface's images cannot be drawn to.
    NoColorAttachment,
}

/// A memory type fits: its bit is set, and it has all required properties.
pub open spec fn type_fits(flags: Seq<u32>, bits: u32, required: u32, i: int) -> bool {
    bits & (1u32 << (i as u32)) != 0 && flags[i] & required == required
}

/// The first memory type that fits. `flags` are the properties of each type,
/// `bits` the types that are allowed.
pub fn find_memory_type(flags: &[u32], bits: u32, required: u32) -> (r: Option<u32>)
    requires
        flags@.len() <= MAX_MEMORY_TYPES,
    ensures
        match r {
            Some(t) => {
                &&& t < flags@.len()
                &&& type_fits(flags@, bits, required, t as int)
                &&& forall|k: int| 0 <= k < t ==> !#[trigger] type_fits(flags@, bits, required, k)
            },
            None => forall|k: int|
                0 <= k < flags@.len() ==> !#[trigger] type_fits(flags@, bits, required, k),
        },
{
    let n: usize = flags.len();
    let mut i: usize = 0;
    while i < n
        invariant
            i <= n,
            n == flags@.len(),
            n <= MAX_MEMORY_TYPES,
            forall|k: int| 0 <= k < i ==> !#[trigger] type_fits(flags@, bits, required, k),
        decreases n - i,
    {
        let t: u32 = i as u32;
        if bits & (1u32 << t) != 0 && flags[i] & required == required {
            assert(type_fits(flags@, bits, required, i as int));
            return Some(t);
        }
        i += 1;
    }
    None
}

/// One queue family of a device.
#[derive(Clone, Copy, Debug, PartialEq, Eq, Structural)]
pub struct QueueFamily {
    pub flags: u32,
    /// It can present to the surface.
    pub present: bool,
}

pub open spec fn family_fits(f: QueueFamily, need_present: bool) -> bool {
    f.flags & QUEUE_GRAPHICS != 0 && (f.present || !need_present)
}

/// The first family that draws, and presents if that is needed.
pub fn pick_queue_family(families: &[QueueFamily], need_present: bool) -> (r: Option<usize>)
    ensures
        match r {
            Some(i) => {
                &&& i < families@.len()
                &&& family_fits(families@[i as int], need_present)
                &&& forall|k: int|
                    0 <= k < i ==> !family_fits(#[trigger] families@[k], need_present)
            },
            None => forall|k: int|
                0 <= k < families@.len() ==> !family_fits(#[trigger] families@[k], need_present),
        },
{
    let n: usize = families.len();
    let mut i: usize = 0;
    while i < n
        invariant
            i <= n,
            n == families@.len(),
            forall|k: int| 0 <= k < i ==> !family_fits(#[trigger] families@[k], need_present),
        decreases n - i,
    {
        let f: QueueFamily = families[i];
        if f.flags & QUEUE_GRAPHICS != 0 && (f.present || !need_present) {
            return Some(i);
        }
        i += 1;
    }
    None
}

pub open spec fn has_family(families: Seq<QueueFamily>, need_present: bool) -> bool {
    exists|k: int| 0 <= k < families.len() && family_fits(#[trigger] families[k], need_present)
}

/// The first device that has a fitting family, and the first such family.
pub fn pick_device(devices: &Vec<Vec<QueueFamily>>, need_present: bool) -> (r: Option<
    (usize, usize),
>)
    ensures
        match r {
            Some((d, f)) => {
                &&& d < devices@.len()
                &&& f < devices@[d as int]@.len()
                &&& family_fits(devices@[d as int]@[f as int], need_present)
                &&& forall|k: int|
                    0 <= k < f ==> !family_fits(
                        #[trigger] devices@[d as int]@[k],
                        need_present,
                    )
                &&& forall|k: int|
                    0 <= k < d ==> !has_family((#[trigger] devices@[k])@, need_present)
            },
            None => forall|k: int|
                0 <= k < devices@.len() ==> !has_family((#[trigger] devices@[k])@, need_present),
        },
{
    let mut d: usize = 0;
    while d < devices.len()
        invariant
            d <= devices@.len(),
            forall|k: int| 0 <= k < d ==> !has_family((#[trigger] devices@[k])@, need_present),
        decreases devices@.len() - d,
    {
        if let Some(f) = pick_queue_family(devices[d].as_slice(), need_present) {
            return Some((d, f));
        }
        d += 1;
    }
    None
}

/// What acquiring an image came to.
#[derive(Clone, Copy, Debug, PartialEq, Eq, Structural)]
pub enum AcquireResult {
    /// An image; `suboptimal` ones are usable.
    Image { index: u32, suboptimal: bool },
    OutOfDate,
    Failed,
}

#[derive(Clone, Copy, Debug, PartialEq, Eq, Structural)]
pub enum AcquireStep {
    /// Ask the swapchain for an image.
    Acquire,
    Use { index: u32 },
    /// Build the swapchain anew and try once more.
    RecreateAndRetry,
    Fail,
}

/// What presenting an image came to.
#[derive(Clone, Copy, Debug, PartialEq, Eq, Structural)]
pub enum PresentResult {
    Presented { suboptimal: bool },
    OutOfDate,
    Failed,
}

#[derive(Clone, Copy, Debug, PartialEq, Eq, Structural)]
pub enum PresentStep {
    /// Hand the image to the swapchain.
    Present,
    Done,
    /// Build the swapchain anew; the frame counts as presented.
    Recreate,
    Fail,
}

#[derive(Clone, Copy, Debug, PartialEq, Eq, Structural)]
pub enum WaitStep {
    /// Interrupted: poll again.
    Again,
    TimedOut,
    Signaled,
    Fail,
}

/// The timeout of a poll, from one in milliseconds.
pub fn poll_timeout(timeout_ms: u32) -> (r: i32)
    ensures
        r == (if timeout_ms <= i32::MAX {
            timeout_ms as int
        } else {
            i32::MAX as int
        }),
{
    if timeout_ms <= i32::MAX as u32 {
        timeout_ms as i32
    } else {
        i32::MAX
    }
}

/// Why a call on the renderer fails before anything is tried.
#[derive(Clone, Copy, Debug, PartialEq, Eq, Structural)]
pub enum DrawError {
    NotInitialized,
    SlotNotImported { slot: u32 },
    ImageMissing { index: u32 },
}

/// Why the renderer cannot be set up.
#[derive(Clone, Copy, Debug, PartialEq, Eq, Structural)]
pub enum InitError {
    InitTwice,
    NullWindow,
}

/// Why a fence cannot be imported as a semaphore. The caller polls it instead.
#[derive(Clone, Copy, Debug, PartialEq, Eq, Structural)]
pub enum FenceError {
    NoDevice,
    Unsupported,
}

/// Why a hardware buffer cannot be imported.
#[derive(Clone, Copy, Debug, PartialEq, Eq, Structural)]
pub enum ImportError {
    NoDevice,
    NoMemoryType,
}

/// A blit of a whole slot into a whole swapchain image.
#[derive(Clone, Copy, Debug, PartialEq, Eq, Structural)]
pub struct BlitPlan {
    /// Wait for the fence of the slot before anything is read.
    pub wait_first: bool,
    /// The far corner, in source and destination alike.
    pub x: i32,
    pub y: i32,
}

/// What the renderer remembers of its device.
pub struct RenderState {
    initialized: bool,
    device: bool,
    semaphore_fd: bool,
    images: usize,
    slots: HashSet<u32>,
    chain: Option<SwapchainPlan>,
}

/// [`RenderState`] as mathematics.
#[verifier::ext_equal]
pub struct RendererState {
    /// It can draw.
    pub initialized: bool,
    /// There is a device.
    pub device: bool,
    /// The device can import fences as semaphores.
    pub semaphore_fd: bool,
    /// Images of the swapchain.
    pub images: nat,
    /// Slots that were imported.
    pub slots: Set<u32>,
    /// What the latest swapchain was created with.
    pub chain: Option<SwapchainPlan>,
}

impl View for RenderState {
    type V = RendererState;

    closed spec fn view(&self) -> RendererState {
        RendererState {
            initialized: self.initialized,
            device: self.device,
            semaphore_fd: self.semaphore_fd,
            images: self.images as nat,
            slots: self.slots@,
            chain: self.chain,
        }
    }
}

impl RendererState {
    /// A renderer that draws has a device.
    pub open spec fn wf(self) -> bool {
        self.initialized ==> self.device
    }
}

impl RenderState {
    pub fn new() -> (r: Self)
        ensures
            r@ == (RendererState {
                initialized: false,
                device: false,
                semaphore_fd: false,
                images: 0,
                slots: Set::empty(),
                chain: None,
            }),
            r@.wf(),
    {
        RenderState {
            initialized: false,
            device: false,
            semaphore_fd: false,
            images: 0,
            slots: HashSet::new(),
            chain: None,
        }
    }

    /// Whether the renderer may be set up on a window: once, and not on none.
    pub fn init(&self, null_window: bool) -> (r: Result<(), InitError>)
        ensures
            r == (if self@.initialized {
                Err::<(), InitError>(InitError::InitTwice)
            } else if null_window {
                Err(InitError::NullWindow)
            } else {
                Ok(())
            }),
    {
        if self.initialized {
            return Err(InitError::InitTwice);
        }
        if null_window {
            return Err(InitError::NullWindow);
        }
        Ok(())
    }

    /// The device is there; `semaphore_fd` says whether it can import fences.
    pub fn device_ready(&mut self, semaphore_fd: bool)
        ensures
            final(self)@ == (RendererState { device: true, semaphore_fd, ..old(self)@ }),
            final(self)@.wf(),
    {
        self.device = true;
        self.semaphore_fd = semaphore_fd;
    }

    /// A swapchain was created, first or anew, with so many images.
    pub fn swapchain_ready(&mut self, images: usize, chain: SwapchainPlan)
        ensures
            final(self)@ == (RendererState {
                images: images as nat,
                chain: Some(chain),
                ..old(self)@
            }),
    {
        self.images = images;
        self.chain = Some(chain);
    }

    /// The set-up is complete.
    pub fn init_done(&mut self)
        requires
            old(self)@.device,
        ensures
            final(self)@ == (RendererState { initialized: true, ..old(self)@ }),
            final(self)@.wf(),
    {
        self.initialized = true;
    }

    /// Whether there is anything to draw to.
    pub fn is_initialized(&self) -> (r: bool)
        ensures
            r == self@.initialized,
    {
        self.initialized
    }

    /// The swapchain is given up, to be created anew.
    pub fn recreate_swapchain(&mut self) -> (r: Result<(), DrawError>)
        requires
            old(self)@.wf(),
        ensures
            r == (if old(self)@.device {
                Ok::<(), DrawError>(())
            } else {
                Err(DrawError::NotInitialized)
            }),
            final(self)@ == (RendererState {
                images: if old(self)@.device {
                    0
                } else {
                    old(self)@.images
                },
                ..old(self)@
            }),
            final(self)@.wf(),
    {
        if !self.initialized && !self.device {
            return Err(DrawError::NotInitialized);
        }
        self.images = 0;
        Ok(())
    }

    /// The pixel format of the swapchain.
    pub fn image_format(&self) -> (r: i32)
        ensures
            r == (match self@.chain {
                Some(c) => c.format.format,
                None => FORMAT_UNDEFINED,
            }),
    {
        match self.chain {
            Some(c) => c.format.format,
            None => FORMAT_UNDEFINED,
        }
    }

    pub fn color_space(&self) -> (r: i32)
        ensures
            r == (match self@.chain {
                Some(c) => c.format.color_space,
                None => COLOR_SPACE_SRGB_NONLINEAR,
            }),
    {
        match self.chain {
            Some(c) => c.format.color_space,
            None => COLOR_SPACE_SRGB_NONLINEAR,
        }
    }

    pub fn extent(&self) -> (r: Extent)
        ensures
            r == (match self@.chain {
                Some(c) => c.extent,
                None => Extent { width: 0, height: 0 },
            }),
    {
        match self.chain {
            Some(c) => c.extent,
            None => Extent { width: 0, height: 0 },
        }
    }

    pub fn present_mode(&self) -> (r: i32)
        ensures
            r == (match self@.chain {
                Some(c) => c.present_mode,
                None => PRESENT_MODE_FIFO,
            }),
    {
        match self.chain {
            Some(c) => c.present_mode,
            None => PRESENT_MODE_FIFO,
        }
    }

    /// Whether fences can be imported as semaphores.
    pub fn semaphore_fd_supported(&self) -> (r: bool)
        ensures
            r == self@.semaphore_fd,
    {
        self.semaphore_fd
    }

    /// Whether a fence may be imported as a semaphore.
    pub fn import_sync_fd_as_semaphore(&self) -> (r: Result<(), FenceError>)
        ensures
            r == (if !self@.device {
                Err::<(), FenceError>(FenceError::NoDevice)
            } else if !self@.semaphore_fd {
                Err(FenceError::Unsupported)
            } else {
                Ok(())
            }),
    {
        if !self.device {
            return Err(FenceError::NoDevice);
        }
        if !self.semaphore_fd {
            return Err(FenceError::Unsupported);
        }
        Ok(())
    }

    /// The memory type to import a hardware buffer with: the first that is
    /// allowed for it, whatever its properties.
    pub fn ahb_memory_type(&self, bits: u32, flags: &[u32]) -> (r: Result<u32, ImportError>)
        requires
            flags@.len() <= MAX_MEMORY_TYPES,
        ensures
            match r {
                Err(ImportError::NoDevice) => !self@.device,
                Err(ImportError::NoMemoryType) => self@.device && forall|k: int|
                    0 <= k < flags@.len() ==> !#[trigger] type_fits(flags@, bits, 0, k),
                Ok(t) => {
                    &&& self@.device
                    &&& t < flags@.len()
                    &&& type_fits(flags@, bits, 0, t as int)
                    &&& forall|k: int| 0 <= k < t ==> !#[trigger] type_fits(flags@, bits, 0, k)
                },
            },
    {
        if !self.device {
            return Err(ImportError::NoDevice);
        }
        match find_memory_type(flags, bits, 0) {
            Some(t) => Ok(t),
            None => Err(ImportError::NoMemoryType),
        }
    }

    /// A slot was imported. It is known by its number.
    pub fn import_ahb_image(&mut self, slot: u32) -> (r: u64)
        ensures
            r == slot,
            final(self)@ == (RendererState {
                slots: old(self)@.slots.insert(slot),
                ..old(self)@
            }),
    {
        self.slots.insert(slot);
        assert(self@.slots =~= old(self)@.slots.insert(slot));
        slot as u64
    }

    /// How to draw a slot into a swapchain image.
    pub fn blit_ahb_to_swapchain(&self, slot: u32, swapchain_index: u32, has_fence: bool) -> (r:
        Result<BlitPlan, DrawError>)
        ensures
            r == (if !self@.initialized {
                Err::<BlitPlan, DrawError>(DrawError::NotInitialized)
            } else if !self@.slots.contains(slot) {
                Err(DrawError::SlotNotImported { slot })
            } else if swapchain_index >= self@.images {
                Err(DrawError::ImageMissing { index: swapchain_index })
            } else {
                Ok(
                    BlitPlan {
                        wait_first: has_fence,
                        x: (match self@.chain {
                            Some(c) => c.extent.width,
                            None => 0,
                        }) as i32,
                        y: (match self@.chain {
                            Some(c) => c.extent.height,
                            None => 0,
                        }) as i32,
                    },
                )
            }),
    {
        if !self.initialized {
            return Err(DrawError::NotInitialized);
        }
        if !self.slots.contains(&slot) {
            return Err(DrawError::SlotNotImported { slot });
        }
        if swapchain_index as usize >= self.images {
            return Err(DrawError::ImageMissing { index: swapchain_index });
        }
        let extent: Extent = self.extent();
        Ok(
            BlitPlan {
                wait_first: has_fence,
                x: #[verifier::truncate]
                (extent.width as i32),
                y: #[verifier::truncate]
                (extent.height as i32),
            },
        )
    }

    /// Plans a swapchain.
    pub fn create_swapchain_and_images(caps: &SurfaceCaps, formats: &[SurfaceFormat], modes: &[i32]) -> (r: Result<
        SwapchainPlan,
        SwapchainError,
    >)
        requires
            caps.sizes_in_order(),
            caps.counts_in_order(),
        ensures
            ({
                let extent = if caps.current_extent.width != u32::MAX {
                    caps.current_extent
                } else {
                    Extent {
                        width: caps.max_image_extent.width,
                        height: clamped(
                            caps.current_extent.height,
                            caps.min_image_extent.height,
                            caps.max_image_extent.height,
                        ),
                    }
                };
                match r {
                    Err(SwapchainError::ZeroExtent) => extent.width == 0 || extent.height == 0,
                    Err(SwapchainError::NoColorAttachment) => extent.width != 0 && extent.height != 0
                        && caps.supported_usage & USAGE_COLOR_ATTACHMENT == 0,
                    Ok(p) => {
                        &&& extent.width != 0 && extent.height != 0
                        &&& caps.supported_usage & USAGE_COLOR_ATTACHMENT != 0
                        &&& p.format == preferred(formats@)
                        &&& p.present_mode == (if modes@.contains(PRESENT_MODE_MAILBOX) {
                            PRESENT_MODE_MAILBOX
                        } else {
                            PRESENT_MODE_FIFO
                        })
                        &&& p.extent == extent
                        &&& p.image_count == clamped(
                            TARGET_IMAGE_COUNT,
                            caps.min_image_count,
                            if caps.max_image_count == 0 {
                                u32::MAX
                            } else {
                                caps.max_image_count
                            },
                        )
                        &&& p.usage == caps.supported_usage & USAGE_WANTED
                        &&& caps.supported_alpha & ALPHA_OPAQUE != 0 || caps.supported_alpha == 0
                            ==> p.composite_alpha == ALPHA_OPAQUE
                        &&& caps.supported_alpha & ALPHA_OPAQUE == 0 && caps.supported_alpha
                            & ALPHA_INHERIT != 0 ==> p.composite_alpha == ALPHA_INHERIT
                        &&& caps.supported_alpha & ALPHA_OPAQUE == 0 && caps.supported_alpha
                            & ALPHA_INHERIT == 0 && caps.supported_alpha != 0 ==> is_lowest_bit(
                            caps.supported_alpha,
                            p.composite_alpha,
                        )
                    },
                }
            }),
    {
        let extent = clamp_extent(caps);
        let usage: u32 = pick_image_usage(caps.supported_usage);
        if extent.width == 0 || extent.height == 0 {
            return Err(SwapchainError::ZeroExtent);
        }
        if usage & USAGE_COLOR_ATTACHMENT == 0 {
            return Err(SwapchainError::NoColorAttachment);
        }
        Ok(
            SwapchainPlan {
                format: pick_format(formats),
                present_mode: pick_present_mode(modes),
                extent,
                image_count: pick_image_count(caps),
                usage,
                composite_alpha: pick_composite_alpha(caps.supported_alpha),
            },
        )
    }

    /// What follows when acquiring an image came to `result`; `None` before
    /// anything was tried. An outdated swapchain is rebuilt once.
    pub fn acquire_next_image(&self, result: Option<AcquireResult>, retried: bool) -> (r: Result<
        AcquireStep,
        DrawError,
    >)
        ensures
            r == (if !self@.initialized {
                Err::<AcquireStep, DrawError>(DrawError::NotInitialized)
            } else {
                Ok(
                    match result {
                        None => AcquireStep::Acquire,
                        Some(AcquireResult::Image { index, .. }) => AcquireStep::Use { index },
                        Some(AcquireResult::OutOfDate) => if retried {
                            AcquireStep::Fail
                        } else {
                            AcquireStep::RecreateAndRetry
                        },
                        Some(AcquireResult::Failed) => AcquireStep::Fail,
                    },
                )
            }),
    {
        if !self.initialized {
            return Err(DrawError::NotInitialized);
        }
        Ok(
            match result {
                None => AcquireStep::Acquire,
                Some(AcquireResult::Image { index, .. }) => AcquireStep::Use { index },
                Some(AcquireResult::OutOfDate) => if retried {
                    AcquireStep::Fail
                } else {
                    AcquireStep::RecreateAndRetry
                },
                Some(AcquireResult::Failed) => AcquireStep::Fail,
            },
        )
    }

    /// What follows when presenting an image came to `result`; `None` before it
    /// was tried. The swapchain is rebuilt where it no longer fits the surface.
    pub fn present(&self, result: Option<PresentResult>) -> (r: Result<PresentStep, DrawError>)
        ensures
            r == (if !self@.initialized {
                Err::<PresentStep, DrawError>(DrawError::NotInitialized)
            } else {
                Ok(
                    match result {
                        None => PresentStep::Present,
                        Some(PresentResult::Presented { suboptimal }) => if suboptimal {
                            PresentStep::Recreate
                        } else {
                            PresentStep::Done
                        },
                        Some(PresentResult::OutOfDate) => PresentStep::Recreate,
                        Some(PresentResult::Failed) => PresentStep::Fail,
                    },
                )
            }),
    {
        if !self.initialized {
            return Err(DrawError::NotInitialized);
        }
        Ok(
            match result {
                None => PresentStep::Present,
                Some(PresentResult::Presented { suboptimal }) => if suboptimal {
                    PresentStep::Recreate
                } else {
                    PresentStep::Done
                },
                Some(PresentResult::OutOfDate) => PresentStep::Recreate,
                Some(PresentResult::Failed) => PresentStep::Fail,
            },
        )
    }

    /// What a poll of a fence came to: its result, the error number where that is
    /// negative, and the events it reports.
    pub fn wait_sync_fd(rc: i32, errno: i32, revents: i32) -> (r: WaitStep)
        ensures
            r == (if rc < 0 {
                if errno == 4 {
                    WaitStep::Again
                } else {
                    WaitStep::Fail
                }
            } else if rc == 0 {
                WaitStep::TimedOut
            } else if revents & 1 != 0 {
                WaitStep::Signaled
            } else {
                WaitStep::Fail
            }),
    {
        if rc < 0 {
            if errno == EINTR {
                WaitStep::Again
            } else {
                WaitStep::Fail
            }
        } else if rc == 0 {
            WaitStep::TimedOut
        } else if revents & POLLIN != 0 {
            WaitStep::Signaled
        } else {
            WaitStep::Fail
        }
    }
}

/// Why the images of a new swapchain cannot be backed.
#[derive(Clone, Copy, Debug, PartialEq, Eq, Structural)]
pub enum BackingError {
    /// No memory type is allowed for the image.
    NoTypeBits { index: u32 },
    /// No allowed type is local to the device.
    NoDeviceLocal { index: u32 },
}

/// What to do next for a new swapchain.
#[derive(Clone, Copy, Debug, PartialEq, Eq, Structural)]
pub enum BackingStep {
    Acquire,
    /// Give an acquired image back.
    Present { index: u32 },
    Done,
}

/// Backs the images of a new swapchain: each is acquired once, since only then
/// its memory requirements are known, gets memory of its own, and when all have
/// it they are given back in the order they came.
pub struct Backing {
    images: usize,
    acquired: Vec<u32>,
    presented: usize,
}

/// The progress of a [`Backing`].
pub struct BackingState {
    pub images: nat,
    pub acquired: Seq<u32>,
    pub presented: nat,
}

impl View for Backing {
    type V = BackingState;

    closed spec fn view(&self) -> BackingState {
        BackingState {
            images: self.images as nat,
            acquired: self.acquired@,
            presented: self.presented as nat,
        }
    }
}

impl BackingState {
    /// No more images are acquired than there are, and none is given back before
    /// all were acquired.
    pub open spec fn wf(self) -> bool {
        &&& self.acquired.len() <= self.images
        &&& self.presented <= self.acquired.len()
        &&& self.presented > 0 ==> self.acquired.len() == self.images
    }

    pub open spec fn next(self) -> BackingStep {
        if self.acquired.len() < self.images {
            BackingStep::Acquire
        } else if self.presented < self.acquired.len() {
            BackingStep::Present { index: self.acquired[self.presented as int] }
        } else {
            BackingStep::Done
        }
    }
}

impl Backing {
    pub fn new(images: usize) -> (r: Self)
        ensures
            r@.images == images,
            r@.acquired == Seq::<u32>::empty(),
            r@.presented == 0,
            r@.wf(),
    {
        Backing { images, acquired: Vec::new(), presented: 0 }
    }

    pub fn next_step(&self) -> (r: BackingStep)
        requires
            self@.wf(),
        ensures
            r == self@.next(),
    {
        if self.acquired.len() < self.images {
            BackingStep::Acquire
        } else if self.presented < self.acquired.len() {
            BackingStep::Present { index: self.acquired[self.presented] }
        } else {
            BackingStep::Done
        }
    }

    /// An image was acquired: the memory type to back it with. `bits` are the
    /// types that are allowed for it, `flags` the properties of all types.
    pub fn acquired(&mut self, index: u32, bits: u32, flags: &[u32]) -> (r: Result<
        u32,
        BackingError,
    >)
        requires
            old(self)@.wf(),
            old(self)@.next() is Acquire,
            index < old(self)@.images,
            flags@.len() <= MAX_MEMORY_TYPES,
        ensures
            final(self)@.images == old(self)@.images,
            final(self)@.presented == old(self)@.presented,
            match r {
                Ok(t) => {
                    &&& bits != 0
                    &&& t < flags@.len()
                    &&& type_fits(flags@, bits, MEMORY_DEVICE_LOCAL, t as int)
                    &&& forall|k: int|
                        0 <= k < t ==> !#[trigger] type_fits(flags@, bits, MEMORY_DEVICE_LOCAL, k)
                    &&& final(self)@.acquired == old(self)@.acquired.push(index)
                },
                Err(e) => {
                    &&& final(self)@.acquired == old(self)@.acquired
                    &&& e == (if bits == 0 {
                        BackingError::NoTypeBits { index }
                    } else {
                        BackingError::NoDeviceLocal { index }
                    })
                    &&& e is NoDeviceLocal ==> forall|k: int|
                        0 <= k < flags@.len() ==> !#[trigger] type_fits(
                            flags@,
                            bits,
                            MEMORY_DEVICE_LOCAL,
                            k,
                        )
                },
            },
            final(self)@.wf(),
    {
        if bits == 0 {
            return Err(BackingError::NoTypeBits { index });
        }
        match find_memory_type(flags, bits, MEMORY_DEVICE_LOCAL) {
            Some(t) => {
                self.acquired.push(index);
                Ok(t)
            },
            None => Err(BackingError::NoDeviceLocal { index }),
        }
    }

    /// An image was given back.
    pub fn presented(&mut self)
        requires
            old(self)@.wf(),
            old(self)@.next() is Present,
        ensures
            final(self)@ == (BackingState {
                presented: old(self)@.presented + 1,
                ..old(self)@
            }),
            final(self)@.wf(),
    {
        self.presented = self.presented + 1;
    }
}

/// The format is one of those that are offered. It is BGRA in the sRGB space if
/// that is among them, else RGBA in that space if that is, and else the first.
pub proof fn lemma_preferred_is_offered(formats: Seq<SurfaceFormat>)
    requires
        formats.len() > 0,
        formats.len() > 1 || formats[0].format != 0,
    ensures
        ({
            let bgra = SurfaceFormat { format: 44, color_space: 0 };
            let rgba = SurfaceFormat { format: 37, color_space: 0 };
            preferred(formats) == (if formats.contains(bgra) {
                bgra
            } else if formats.contains(rgba) {
                rgba
            } else {
                formats[0]
            })
        }),
{
    lemma_first_of(formats, 44);
    lemma_first_of(formats, 37);
}

/// Where nothing is asked for, BGRA in the sRGB space it is.
pub proof fn lemma_preferred_by_itself(f: SurfaceFormat)
    requires
        f.format == 0,
    ensures
        preferred(seq![f]) == (SurfaceFormat { format: 44, color_space: 0 }),
        preferred(seq![]) == (SurfaceFormat { format: 44, color_space: 0 }),
{
}

proof fn lemma_first_of(formats: Seq<SurfaceFormat>, format: i32)
    ensures
        ({
            let wanted = SurfaceFormat { format, color_space: 0 };
            first_of(formats, format) == (if formats.contains(wanted) {
                Some(wanted)
            } else {
                None
            })
        }),
    decreases formats.len(),
{
    let wanted = SurfaceFormat { format, color_space: 0 };
    if formats.len() > 0 {
        let tail = formats.drop_first();
        lemma_first_of(tail, format);
        if formats.contains(wanted) {
            let k = choose|k: int| 0 <= k < formats.len() && formats[k] == wanted;
            if k > 0 {
                assert(tail[k - 1] == wanted);
            }
        }
        if tail.contains(wanted) {
            let k = choose|k: int| 0 <= k < tail.len() && tail[k] == wanted;
            assert(formats[k + 1] == wanted);
        }
        if formats[0] == wanted {
            assert(formats.contains(wanted));
        }
    }
}

/// A clamped value lies within the bounds, and is the nearest one that does.
pub proof fn lemma_clamped_is_nearest(v: u32, low: u32, high: u32, other: u32)
    requires
        low <= high,
        low <= other <= high,
    ensures
        low <= clamped(v, low, high) <= high,
        v <= other ==> v <= clamped(v, low, high) <= other || clamped(v, low, high) == v,
        other <= v ==> other <= clamped(v, low, high) <= v || clamped(v, low, high) == v,
        low <= v <= high ==> clamped(v, low, high) == v,
{
}

/// A memory type fits if it is allowed and has every property that is required.
pub proof fn lemma_type_fits(flags: Seq<u32>, bits: u32, required: u32, i: u32, p: u32)
    requires
        i < 32,
        i < flags.len(),
        p < 32,
    ensures
        type_fits(flags, bits, required, i as int) ==> (bits >> i) & 1 == 1 && ((required >> p) & 1
            == 1 ==> (flags[i as int] >> p) & 1 == 1),
        (bits >> i) & 1 == 1 && flags[i as int] | required == flags[i as int] ==> type_fits(
            flags,
            bits,
            required,
            i as int,
        ),
{
    let f = flags[i as int];
    assert(i < 32 ==> ((bits & (1u32 << i) != 0) <==> (bits >> i) & 1 == 1)) by (bit_vector);
    assert(p < 32 && f & required == required && (required >> p) & 1 == 1 ==> (f >> p) & 1 == 1)
        by (bit_vector);
    assert(f | required == f ==> f & required == required) by (bit_vector);
}

/// A queue family fits if it draws, and presents where that is needed.
pub proof fn lemma_family_fits(f: QueueFamily, need_present: bool)
    ensures
        family_fits(f, need_present) <==> f.flags % 2 == 1 && (need_present ==> f.present),
{
    let flags = f.flags;
    assert(flags & 1 == flags % 2) by (bit_vector);
}

/// The lowest bit is one that is set, and none that is set is lower.
pub proof fn lemma_lowest_bit(flags: u32, r: u32, k: u32)
    requires
        is_lowest_bit(flags, r),
        k < 32,
    ensures
        r != 0,
        flags & r == r,
        (flags >> k) & 1 == 1 ==> r <= 1u32 << k,
{
    let i = choose|i: u32|
        #![trigger 1u32 << i]
        i < 32 && r == 1u32 << i && flags & (1u32 << i) != 0 && (forall|k: u32|
            #![trigger 1u32 << k]
            k < i ==> flags & (1u32 << k) == 0);
    assert(i < 32 && r == 1u32 << i && flags & (1u32 << i) != 0 ==> r != 0 && flags & r == r)
        by (bit_vector);
    assert(k < 32 && (flags >> k) & 1 == 1 ==> flags & (1u32 << k) != 0) by (bit_vector);
    assert(i <= k < 32 ==> 1u32 << i <= 1u32 << k) by (bit_vector);
    if (flags >> k) & 1 == 1 && k < i {
        assert(flags & (1u32 << k) == 0);
    }
}

/// All images of a swapchain are acquired before the first is given back; then
/// they are given back in the order they came, each once, and it is done.
pub proof fn lemma_images_come_and_go(s: BackingState)
    requires
        s.wf(),
    ensures
        s.next() is Acquire <==> s.acquired.len() < s.images,
        s.next() is Done <==> s.acquired.len() == s.images && s.presented == s.images,
        s.next() matches BackingStep::Present { index } ==> s.acquired.len() == s.images
            && s.presented < s.images && index == s.acquired[s.presented as int],
{
}

} // verus!
