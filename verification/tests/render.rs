use wl_android::blit::{BlitEngine, BlitError, BlitImportError, Handles, QueueError};
use wl_android::render::{
    clamp_extent, find_memory_type, pick_composite_alpha, pick_device, pick_format,
    pick_image_count, pick_image_usage, pick_present_mode, pick_queue_family, poll_timeout,
    AcquireResult, AcquireStep, Backing, BackingError, BackingStep, BlitPlan, DrawError, Extent,
    FenceError, ImportError, InitError,
    PresentResult, PresentStep, QueueFamily, RenderState, SurfaceCaps, SurfaceFormat,
    SwapchainError, WaitStep,
};
use wl_android::vulkan::{QuadError, VulkanRenderer};

fn format(format: i32, color_space: i32) -> SurfaceFormat {
    SurfaceFormat { format, color_space }
}

fn caps() -> SurfaceCaps {
    SurfaceCaps {
        min_image_count: 2,
        max_image_count: 8,
        current_extent: Extent { width: 100, height: 50 },
        min_image_extent: Extent { width: 1, height: 1 },
        max_image_extent: Extent { width: 4096, height: 4096 },
        supported_usage: 0x1F,
        supported_alpha: 0x9,
    }
}

#[test]
fn formats_are_picked_by_preference() {
    let bgra = format(44, 0);
    assert_eq!(pick_format(&[]), bgra);
    assert_eq!(pick_format(&[format(0, 7)]), bgra);
    assert_eq!(pick_format(&[format(37, 0), format(44, 5), format(44, 0)]), bgra);
    assert_eq!(pick_format(&[format(44, 5), format(37, 0)]), format(37, 0));
    assert_eq!(pick_format(&[format(9, 0), format(37, 5), format(44, 5)]), format(9, 0));
    assert_eq!(pick_format(&[format(9, 0), format(37, 5)]), format(9, 0));
    assert_eq!(pick_format(&[format(4, 0), format(44, 1000104001)]), format(4, 0));
    assert_eq!(pick_format(&[format(9, 1), format(10, 0)]), format(9, 1));
}

#[test]
fn present_modes() {
    assert_eq!(pick_present_mode(&[2, 1]), 1);
    assert_eq!(pick_present_mode(&[2, 0]), 2);
    assert_eq!(pick_present_mode(&[]), 2);
}

#[test]
fn extents_stay_in_bounds() {
    assert_eq!(clamp_extent(&caps()), Extent { width: 100, height: 50 });
    let mut c = caps();
    c.current_extent = Extent { width: u32::MAX, height: u32::MAX };
    assert_eq!(clamp_extent(&c), Extent { width: 4096, height: 4096 });
    c.current_extent.height = 0;
    assert_eq!(clamp_extent(&c), Extent { width: 4096, height: 1 });
    c.min_image_extent = Extent { width: 9, height: 9 };
    c.max_image_extent = Extent { width: 3, height: 3 };
    c.current_extent = Extent { width: 20, height: 10 };
    assert_eq!(clamp_extent(&c), Extent { width: 20, height: 10 });
}

#[test]
fn image_counts() {
    let mut c = caps();
    assert_eq!(pick_image_count(&c), 3);
    c.max_image_count = 2;
    assert_eq!(pick_image_count(&c), 2);
    c.max_image_count = 0;
    c.min_image_count = 5;
    assert_eq!(pick_image_count(&c), 5);
}

#[test]
fn composite_alphas() {
    assert_eq!(pick_composite_alpha(0xF), 1);
    assert_eq!(pick_composite_alpha(0xA), 8);
    assert_eq!(pick_composite_alpha(0x6), 2);
    assert_eq!(pick_composite_alpha(0x8000_0000), 0x8000_0000);
    assert_eq!(pick_composite_alpha(0), 1);
}

#[test]
fn usages() {
    assert_eq!(pick_image_usage(0xFF), 0x12);
    assert_eq!(pick_image_usage(0x10), 0x10);
    assert_eq!(pick_image_usage(0x1), 0);
}

#[test]
fn swapchains_are_planned() {
    let p = RenderState::create_swapchain_and_images(&caps(), &[format(37, 0)], &[2]).unwrap();
    assert_eq!(p.format, format(37, 0));
    assert_eq!((p.present_mode, p.image_count, p.usage, p.composite_alpha), (2, 3, 0x12, 1));
    assert_eq!(p.extent, Extent { width: 100, height: 50 });
    let mut c = caps();
    c.supported_usage = 0x2;
    assert_eq!(
        RenderState::create_swapchain_and_images(&c, &[], &[]),
        Err(SwapchainError::NoColorAttachment)
    );
    c.current_extent.height = 0;
    assert_eq!(
        RenderState::create_swapchain_and_images(&c, &[], &[]),
        Err(SwapchainError::ZeroExtent)
    );
}

#[test]
fn memory_types() {
    let flags = [0, 1, 3, 1];
    assert_eq!(find_memory_type(&flags, 0xF, 1), Some(1));
    assert_eq!(find_memory_type(&flags, 0xC, 1), Some(2));
    assert_eq!(find_memory_type(&flags, 0x8, 3), None);
    assert_eq!(VulkanRenderer::find_mt(&flags, 0xF, 2), Some(2));
    assert_eq!(VulkanRenderer::find_mt(&flags, 0, 0), None);
}

#[test]
fn devices_and_queues() {
    let draw = QueueFamily { flags: 1, present: false };
    let both = QueueFamily { flags: 3, present: true };
    let none = QueueFamily { flags: 4, present: true };
    assert_eq!(pick_queue_family(&[none, draw, both], true), Some(2));
    assert_eq!(pick_queue_family(&[none, draw, both], false), Some(1));
    assert_eq!(pick_queue_family(&[none], false), None);
    let devices = vec![vec![none, draw], vec![none, both]];
    assert_eq!(pick_device(&devices, true), Some((1, 1)));
    assert_eq!(pick_device(&devices, false), Some((0, 1)));
    assert_eq!(pick_device(&vec![vec![none]], false), None);
}

fn ready() -> RenderState {
    let plan =
        RenderState::create_swapchain_and_images(&caps(), &[format(37, 0)], &[1]).unwrap();
    let mut r = RenderState::new();
    r.device_ready(true);
    r.swapchain_ready(3, plan);
    r.init_done();
    r
}

#[test]
fn acquiring_and_presenting() {
    let fresh = RenderState::new();
    assert_eq!(fresh.acquire_next_image(None, false), Err(DrawError::NotInitialized));
    assert_eq!(fresh.present(None), Err(DrawError::NotInitialized));

    let r = ready();
    assert_eq!(r.acquire_next_image(None, false), Ok(AcquireStep::Acquire));
    let image = AcquireResult::Image { index: 2, suboptimal: true };
    assert_eq!(r.acquire_next_image(Some(image), false), Ok(AcquireStep::Use { index: 2 }));
    assert_eq!(
        r.acquire_next_image(Some(AcquireResult::OutOfDate), false),
        Ok(AcquireStep::RecreateAndRetry)
    );
    assert_eq!(
        r.acquire_next_image(Some(AcquireResult::OutOfDate), true),
        Ok(AcquireStep::Fail)
    );
    assert_eq!(
        r.acquire_next_image(Some(AcquireResult::Failed), false),
        Ok(AcquireStep::Fail)
    );
    assert_eq!(r.present(None), Ok(PresentStep::Present));
    assert_eq!(
        r.present(Some(PresentResult::Presented { suboptimal: false })),
        Ok(PresentStep::Done)
    );
    assert_eq!(
        r.present(Some(PresentResult::Presented { suboptimal: true })),
        Ok(PresentStep::Recreate)
    );
    assert_eq!(r.present(Some(PresentResult::OutOfDate)), Ok(PresentStep::Recreate));
    assert_eq!(r.present(Some(PresentResult::Failed)), Ok(PresentStep::Fail));
}

#[test]
fn waiting_for_a_fence() {
    assert_eq!(RenderState::wait_sync_fd(-1, 4, 0), WaitStep::Again);
    assert_eq!(RenderState::wait_sync_fd(-1, 5, 0), WaitStep::Fail);
    assert_eq!(RenderState::wait_sync_fd(0, 0, 0), WaitStep::TimedOut);
    assert_eq!(RenderState::wait_sync_fd(1, 0, 1), WaitStep::Signaled);
    assert_eq!(RenderState::wait_sync_fd(1, 0, 8), WaitStep::Fail);
    assert_eq!(poll_timeout(5), 5);
    assert_eq!(poll_timeout(u32::MAX), i32::MAX);
}

#[test]
fn slots_are_drawn_once_they_are_imported() {
    let fresh = RenderState::new();
    assert_eq!(fresh.init(true), Err(InitError::NullWindow));
    assert_eq!(fresh.init(false), Ok(()));
    assert!(!fresh.is_initialized());
    assert_eq!(fresh.blit_ahb_to_swapchain(0, 0, false), Err(DrawError::NotInitialized));
    assert_eq!(fresh.ahb_memory_type(1, &[0]), Err(ImportError::NoDevice));
    assert_eq!(fresh.import_sync_fd_as_semaphore(), Err(FenceError::NoDevice));
    assert_eq!((fresh.image_format(), fresh.color_space(), fresh.present_mode()), (0, 0, 2));
    assert_eq!(fresh.extent(), Extent { width: 0, height: 0 });

    let mut r = ready();
    assert!(r.is_initialized());
    assert_eq!(r.init(false), Err(InitError::InitTwice));
    assert_eq!((r.image_format(), r.color_space(), r.present_mode()), (37, 0, 1));
    assert_eq!(
        r.blit_ahb_to_swapchain(7, 0, true),
        Err(DrawError::SlotNotImported { slot: 7 })
    );
    assert_eq!(r.ahb_memory_type(0x6, &[0, 0, 0]), Ok(1));
    assert_eq!(r.ahb_memory_type(0x8, &[0, 0, 0]), Err(ImportError::NoMemoryType));
    assert_eq!(r.import_ahb_image(7), 7);
    assert_eq!(
        r.blit_ahb_to_swapchain(7, 2, true),
        Ok(BlitPlan { wait_first: true, x: 100, y: 50 })
    );
    assert_eq!(
        r.blit_ahb_to_swapchain(7, 3, false),
        Err(DrawError::ImageMissing { index: 3 })
    );
    assert!(r.semaphore_fd_supported());
    assert_eq!(r.import_sync_fd_as_semaphore(), Ok(()));
    r.device_ready(false);
    assert_eq!(r.import_sync_fd_as_semaphore(), Err(FenceError::Unsupported));
}

#[test]
fn a_swapchain_is_given_up_before_it_is_rebuilt() {
    let mut fresh = RenderState::new();
    assert_eq!(fresh.recreate_swapchain(), Err(DrawError::NotInitialized));
    let mut r = ready();
    r.import_ahb_image(1);
    assert_eq!(r.recreate_swapchain(), Ok(()));
    assert_eq!(
        r.blit_ahb_to_swapchain(1, 0, false),
        Err(DrawError::ImageMissing { index: 0 })
    );
}

#[test]
fn all_images_are_backed_before_any_is_given_back() {
    let flags = [0, 1];
    let mut b = Backing::new(2);
    assert_eq!(b.next_step(), BackingStep::Acquire);
    assert_eq!(b.acquired(1, 3, &flags), Ok(1));
    assert_eq!(b.next_step(), BackingStep::Acquire);
    assert_eq!(b.acquired(0, 0, &flags), Err(BackingError::NoTypeBits { index: 0 }));
    assert_eq!(b.acquired(0, 1, &flags), Err(BackingError::NoDeviceLocal { index: 0 }));
    assert_eq!(b.acquired(0, 2, &flags), Ok(1));
    assert_eq!(b.next_step(), BackingStep::Present { index: 1 });
    b.presented();
    assert_eq!(b.next_step(), BackingStep::Present { index: 0 });
    b.presented();
    assert_eq!(b.next_step(), BackingStep::Done);
}

#[test]
fn the_quad_swapchain() {
    let p = VulkanRenderer::set_surface(
        &[format(44, 0), format(43, 0)],
        &[1],
        Extent { width: 10, height: 20 },
        2,
        1,
        1,
    );
    assert_eq!(p.format, format(43, 0));
    assert_eq!(p.extent, Extent { width: 10, height: 20 });
    assert_eq!((p.present_mode, p.image_count), (1, 3));
    let p = VulkanRenderer::set_surface(
        &[format(44, 0)],
        &[],
        Extent { width: 0, height: 9 },
        2,
        0,
        7,
    );
    assert_eq!(p.format, format(44, 0));
    assert_eq!(p.extent, Extent { width: 1, height: 7 });
}

type Refusal = &'static str;

#[test]
fn the_quad_renderer() {
    let draw = QueueFamily { flags: 1, present: false };
    let none = QueueFamily { flags: 2, present: false };
    assert!(VulkanRenderer::new(&vec![vec![none]]).is_none());
    let (mut v, d, f) = VulkanRenderer::new(&vec![vec![none], vec![none, draw]]).unwrap();
    assert_eq!((d, f), (1, 1));
    let create = || -> Result<(u8, u32), Refusal> { Ok((9, 0x2)) };
    assert!(matches!(
        v.import_and_render(&[1, 1], create, |_, _, _| Ok(())),
        Err(QuadError::NoExternalMemory)
    ));
    assert_eq!(v.cleanup(Some(5)), None);
    v.surface_ready(5);
    assert_eq!(v.cleanup(Some(5)), None);
    assert_eq!(v.cleanup(Some(6)), Some(5));
    assert_eq!(v.cleanup(None), Some(5));

    v.device_ready(&vec!["VK_KHR_swapchain".to_string(), "VK_KHR_external_memory".to_string()]);
    assert!(!v.has_external_memory_fd);
    v.device_ready(&vec!["VK_KHR_swapchain".to_string(), "VK_KHR_external_memory_fd".to_string()]);
    assert!(v.has_external_memory_fd);
    let drawn = v.import_and_render(&[1, 1], create, |image, t, onto| {
        assert_eq!((image, t, onto), (9, 1, true));
        Ok(())
    });
    assert!(drawn.is_ok());
    assert!(matches!(
        v.import_and_render(&[1, 0], create, |_, _, _| Ok(())),
        Err(QuadError::NoMemoryType)
    ));
    assert!(matches!(
        v.import_and_render(&[1, 1], create, |_, _, _| Err("draw")),
        Err(QuadError::Device("draw"))
    ));
    assert!(matches!(
        v.import_and_render(&[1], || Err::<(u8, u32), Refusal>("image"), |_, _, _| Ok(())),
        Err(QuadError::Device("image"))
    ));
}

#[test]
fn a_queue_to_blit_on() {
    let draw = QueueFamily { flags: 1, present: false };
    let none = QueueFamily { flags: 2, present: false };
    assert_eq!(BlitEngine::<u8>::pick_queue(&vec![]), Err(QueueError::NoDevice));
    assert_eq!(
        BlitEngine::<u8>::pick_queue(&vec![vec![none], vec![draw]]),
        Err(QueueError::NoGraphicsQueue)
    );
    assert_eq!(BlitEngine::<u8>::pick_queue(&vec![vec![none, draw]]), Ok(1));
}

#[test]
fn blit_images_are_kept_by_handle() {
    let mut h = Handles::new();
    let mut e: BlitEngine<&str> = BlitEngine::new();
    assert!(!e.is_initialized());
    assert_eq!(e.blit_submit(1, 2), Err(BlitError::NotInitialized));
    let create = || -> Result<(u8, u32), Refusal> { Ok((4, 0x2)) };
    assert!(matches!(
        e.import_dmabuf(&mut h, &[0, 0], create, |_, _| Ok("x")),
        Err(BlitImportError::NotInitialized)
    ));
    assert_eq!(e.wait_complete(|| Err("wait")), Ok(()));
    assert_eq!(e.init(|| Err("init")), Err("init"));
    assert!(!e.is_initialized());
    assert_eq!(e.init(|| Ok::<(), Refusal>(())), Ok(()));
    assert_eq!(e.init(|| Err("again")), Ok(()));
    assert!(e.is_initialized());
    assert_eq!(e.wait_complete(|| Err("wait")), Err("wait"));

    let bind = |p: u8, t: u32| -> Result<&'static str, Refusal> {
        assert_eq!((p, t), (4, 1));
        Ok("a")
    };
    assert!(matches!(e.import_dmabuf(&mut h, &[0, 0], create, bind), Ok(1)));
    assert_eq!(e.blit_submit(9, 1), Err(BlitError::SrcNotFound));
    assert_eq!(e.blit_submit(1, 2), Err(BlitError::DstNotFound));
    assert!(matches!(
        e.import_dmabuf(&mut h, &[0], create, bind),
        Err(BlitImportError::NoMemoryType)
    ));
    assert!(matches!(
        e.import_dmabuf(&mut h, &[0, 0], create, |_, _| Err("bind")),
        Err(BlitImportError::Device("bind"))
    ));
    assert!(matches!(
        e.import_dmabuf(&mut h, &[0, 0], || Err::<(u8, u32), Refusal>("make"), bind),
        Err(BlitImportError::Device("make"))
    ));
    assert!(matches!(e.import_dmabuf(&mut h, &[0, 0], create, |_, _| Ok("b")), Ok(2)));
    assert_eq!(e.blit_submit(1, 2), Ok((&"a", &"b")));
    assert_eq!(e.destroy_image(1), Some("a"));
    assert_eq!(e.destroy_image(1), None);
    assert_eq!(h.upcoming(), 3);
    assert!(matches!(e.import_dmabuf(&mut h, &[0, 0], create, bind), Ok(3)));

    let mut second: BlitEngine<&str> = BlitEngine::new();
    second.init(|| Ok::<(), Refusal>(())).unwrap();
    assert!(matches!(second.import_dmabuf(&mut h, &[0, 0], create, bind), Ok(4)));
    assert!(matches!(e.import_dmabuf(&mut h, &[0, 0], create, bind), Ok(5)));
    assert_eq!(second.blit_submit(4, 3), Err(BlitError::DstNotFound));
}
