//! Who receives what: frames go from the compositor to the App, touches from
//! the App to the compositor.

use vstd::prelude::*;

verus! {

/// The two connections, by their descriptors.
#[derive(Clone, Copy, Debug, PartialEq, Eq, Structural)]
pub struct Forwarder {
    pub compositor_fd: Option<i32>,
    pub app_fd: Option<i32>,
}

impl Forwarder {
    /// The number that an absent connection is compared as.
    pub open spec fn or_none(fd: Option<i32>) -> i32 {
        match fd {
            Some(fd) => fd,
            None => -1i32,
        }
    }

    /// Where a frame from `source` goes.
    pub open spec fn frame_target(self, source: i32) -> Option<i32> {
        if source == Self::or_none(self.compositor_fd) {
            self.app_fd
        } else {
            self.compositor_fd
        }
    }

    /// Where a touch from `source` goes.
    pub open spec fn touch_target(self, source: i32) -> Option<i32> {
        if source == Self::or_none(self.app_fd) {
            self.compositor_fd
        } else {
            self.app_fd
        }
    }

    pub fn new() -> (r: Self)
        ensures
            r == (Forwarder { compositor_fd: None, app_fd: None }),
    {
        Forwarder { compositor_fd: None, app_fd: None }
    }

    pub fn register_compositor(&mut self, fd: i32)
        ensures
            *final(self) == (Forwarder { compositor_fd: Some(fd), ..*old(self) }),
    {
        self.compositor_fd = Some(fd);
    }

    pub fn register_app(&mut self, fd: i32)
        ensures
            *final(self) == (Forwarder { app_fd: Some(fd), ..*old(self) }),
    {
        self.app_fd = Some(fd);
    }

    pub fn unregister_compositor(&mut self)
        ensures
            *final(self) == (Forwarder { compositor_fd: None, ..*old(self) }),
    {
        self.compositor_fd = None;
    }

    pub fn unregister_app(&mut self)
        ensures
            *final(self) == (Forwarder { app_fd: None, ..*old(self) }),
    {
        self.app_fd = None;
    }

    /// Both ends are there.
    pub fn has_pair(&self) -> (r: bool)
        ensures
            r == (self.compositor_fd is Some && self.app_fd is Some),
    {
        self.compositor_fd.is_some() && self.app_fd.is_some()
    }

    pub fn target_for_frame(&self, source: i32) -> (r: Option<i32>)
        ensures
            r == self.frame_target(source),
    {
        if source == self.compositor_fd.unwrap_or(-1) {
            self.app_fd
        } else {
            self.compositor_fd
        }
    }

    pub fn target_for_touch(&self, source: i32) -> (r: Option<i32>)
        ensures
            r == self.touch_target(source),
    {
        if source == self.app_fd.unwrap_or(-1) {
            self.compositor_fd
        } else {
            self.app_fd
        }
    }
}

/// With both ends there, a frame of the compositor reaches the App and a touch
/// of the App reaches the compositor.
pub proof fn lemma_paired_routes(compositor: i32, app: i32)
    ensures
        ({
            let f = Forwarder { compositor_fd: Some(compositor), app_fd: Some(app) };
            &&& f.frame_target(compositor) == Some(app)
            &&& f.touch_target(app) == Some(compositor)
        }),
{
}

/// Frames go to the App if the compositor sends them, and touches to the
/// compositor if the App sends them; whatever else sends one, it goes to the
/// other end. Nothing goes to an end that is not there.
pub proof fn lemma_routes(f: Forwarder, source: i32)
    requires
        source >= 0,
    ensures
        f.compositor_fd == Some(source) ==> f.frame_target(source) == f.app_fd,
        f.compositor_fd != Some(source) ==> f.frame_target(source) == f.compositor_fd,
        f.app_fd == Some(source) ==> f.touch_target(source) == f.compositor_fd,
        f.app_fd != Some(source) ==> f.touch_target(source) == f.app_fd,
{
}

} // verus!
