//! The images of a blit engine, by handle.

use std::collections::HashMap;
use vstd::prelude::*;
use vstd::std_specs::hash::*;
use crate::render::{find_memory_type, pick_queue_family, QueueFamily, MAX_MEMORY_TYPES};

verus! {

broadcast use vstd::std_specs::hash::group_hash_axioms;

#[derive(Clone, Copy, Debug, PartialEq, Eq, Structural)]
pub enum BlitError {
    NotInitialized,
    SrcNotFound,
    DstNotFound,
}

/// Why no queue to blit on is found.
#[derive(Clone, Copy, Debug, PartialEq, Eq, Structural)]
pub enum QueueError {
    NoDevice,
    NoGraphicsQueue,
}

/// Why an image is not imported.
#[derive(Debug)]
pub enum BlitImportError<E> {
    NotInitialized,
    NoMemoryType,
    /// The driver refuses.
    Device(E),
}

/// Gives out handles, from one on. All engines of a process share it, so that
/// no two images have the same.
pub struct Handles {
    next: u64,
}

impl View for Handles {
    type V = u64;

    closed spec fn view(&self) -> u64 {
        self.next
    }
}

impl Handles {
    pub fn new() -> (r: Self)
        ensures
            r@ == 1,
    {
        Handles { next: 1 }
    }

    /// The handle that the next image gets.
    pub fn upcoming(&self) -> (r: u64)
        ensures
            r == self@,
    {
        self.next
    }

    /// Gives out the next handle.
    fn next_handle(&mut self) -> (r: u64)
        requires
            old(self)@ < u64::MAX,
        ensures
            r == old(self)@,
            final(self)@ == r + 1,
    {
        let h: u64 = self.next;
        self.next = h + 1;
        h
    }
}

/// What an engine remembers.
#[verifier::ext_equal]
pub struct BlitState<I> {
    pub images: Map<u64, I>,
    pub initialized: bool,
}

pub struct BlitEngine<I> {
    images: HashMap<u64, I>,
    initialized: bool,
}

impl<I> View for BlitEngine<I> {
    type V = BlitState<I>;

    closed spec fn view(&self) -> BlitState<I> {
        BlitState { images: self.images@, initialized: self.initialized }
    }
}

impl<I> BlitState<I> {
    /// All images have handles that were given out before `next`.
    pub open spec fn wf(self, next: u64) -> bool {
        forall|h: u64| #[trigger] self.images.contains_key(h) ==> 1 <= h < next
    }

    /// The state with one more image.
    pub open spec fn kept(self, handle: u64, image: I) -> BlitState<I> {
        BlitState { images: self.images.insert(handle, image), ..self }
    }
}

/// `t` is the first memory type that `bits` allow.
pub open spec fn first_allowed(flags: Seq<u32>, bits: u32, t: u32) -> bool {
    &&& t < flags.len()
    &&& crate::render::type_fits(flags, bits, 0, t as int)
    &&& forall|k: int| 0 <= k < t ==> !#[trigger] crate::render::type_fits(flags, bits, 0, k)
}

impl<I> BlitEngine<I> {
    pub fn new() -> (r: Self)
        ensures
            r@.images == Map::<u64, I>::empty(),
            !r@.initialized,
            forall|next: u64| #[trigger] r@.wf(next),
    {
        BlitEngine { images: HashMap::new(), initialized: false }
    }

    /// The queue family to blit on: the first that draws, on the first device.
    pub fn pick_queue(devices: &Vec<Vec<QueueFamily>>) -> (r: Result<usize, QueueError>)
        ensures
            match r {
                Err(QueueError::NoDevice) => devices@.len() == 0,
                Err(QueueError::NoGraphicsQueue) => devices@.len() > 0
                    && !crate::render::has_family(devices@[0]@, false),
                Ok(f) => {
                    &&& devices@.len() > 0
                    &&& f < devices@[0]@.len()
                    &&& crate::render::family_fits(devices@[0]@[f as int], false)
                    &&& forall|k: int|
                        0 <= k < f ==> !crate::render::family_fits(
                            #[trigger] devices@[0]@[k],
                            false,
                        )
                },
            },
    {
        if devices.len() == 0 {
            return Err(QueueError::NoDevice);
        }
        match pick_queue_family(devices[0].as_slice(), false) {
            Some(f) => Ok(f),
            None => Err(QueueError::NoGraphicsQueue),
        }
    }

    /// Sets the device up by `setup`, unless it is.
    pub fn init<E, S: FnOnce() -> Result<(), E>>(&mut self, setup: S) -> (r: Result<(), E>)
        requires
            !old(self)@.initialized ==> call_requires(setup, ()),
        ensures
            old(self)@.initialized ==> r is Ok && final(self)@ == old(self)@,
            !old(self)@.initialized ==> call_ensures(setup, (), r) && final(self)@ == (BlitState {
                initialized: r is Ok,
                ..old(self)@
            }),
    {
        if self.initialized {
            return Ok(());
        }
        let r = setup();
        if r.is_ok() {
            self.initialized = true;
        }
        r
    }

    pub fn is_initialized(&self) -> (r: bool)
        ensures
            r == self@.initialized,
    {
        self.initialized
    }

    /// Imports an image and keeps it under a new handle. `create` makes the bare
    /// image and reports the memory types that are allowed for it; `bind` gives
    /// it memory of the first of these. `flags` are the properties of all types.
    pub fn import_dmabuf<
        P,
        E,
        C: FnOnce() -> Result<(P, u32), E>,
        B: FnOnce(P, u32) -> Result<I, E>,
    >(&mut self, handles: &mut Handles, flags: &[u32], create: C, bind: B) -> (r: Result<
        u64,
        BlitImportError<E>,
    >)
        requires
            old(self)@.wf(old(handles)@),
            old(self)@.initialized ==> 1 <= old(handles)@ < u64::MAX,
            flags@.len() <= MAX_MEMORY_TYPES,
            old(self)@.initialized ==> call_requires(create, ()),
            forall|p: P, bits: u32, t: u32|
                old(self)@.initialized && #[trigger] call_ensures(create, (), Ok((p, bits)))
                    && #[trigger] first_allowed(flags@, bits, t) ==> call_requires(bind, (p, t)),
        ensures
            final(self)@.wf(final(handles)@),
            r is Err ==> final(self)@ == old(self)@ && final(handles)@ == old(handles)@,
            r matches Err(BlitImportError::NotInitialized) <==> !old(self)@.initialized,
            r matches Err(BlitImportError::NoMemoryType) ==> exists|p: P, bits: u32|
                #[trigger] call_ensures(create, (), Ok((p, bits))) && (forall|k: int|
                    0 <= k < flags@.len() ==> !#[trigger] crate::render::type_fits(
                        flags@,
                        bits,
                        0,
                        k,
                    )),
            r matches Err(BlitImportError::Device(e)) ==> call_ensures(create, (), Err(e)) || exists|
                p: P,
                bits: u32,
                t: u32,
            | #[trigger]
                call_ensures(create, (), Ok((p, bits))) && first_allowed(flags@, bits, t)
                    && #[trigger] call_ensures(bind, (p, t), Err(e)),
            r matches Ok(h) ==> {
                &&& h == old(handles)@
                &&& final(handles)@ == h + 1
                &&& exists|p: P, bits: u32, t: u32, image: I| #[trigger]
                    call_ensures(create, (), Ok((p, bits))) && first_allowed(flags@, bits, t)
                        && #[trigger] call_ensures(bind, (p, t), Ok(image)) && final(self)@
                        == old(self)@.kept(h, image)
            },
    {
        if !self.initialized {
            return Err(BlitImportError::NotInitialized);
        }
        let (image, bits) = match create() {
            Ok(made) => made,
            Err(e) => {
                return Err(BlitImportError::Device(e));
            },
        };
        let t: u32 = match find_memory_type(flags, bits, 0) {
            Some(t) => t,
            None => {
                return Err(BlitImportError::NoMemoryType);
            },
        };
        assert(first_allowed(flags@, bits, t));
        match bind(image, t) {
            Ok(bound) => {
                let handle: u64 = handles.next_handle();
                self.images.insert(handle, bound);
                assert(self@ =~= old(self)@.kept(handle, bound));
                Ok(handle)
            },
            Err(e) => Err(BlitImportError::Device(e)),
        }
    }

    /// Waits for the latest blit by `wait`. There is none without a device.
    pub fn wait_complete<E, W: FnOnce() -> Result<(), E>>(&self, wait: W) -> (r: Result<(), E>)
        requires
            self@.initialized ==> call_requires(wait, ()),
        ensures
            self@.initialized ==> call_ensures(wait, (), r),
            !self@.initialized ==> r is Ok,
    {
        if !self.initialized {
            return Ok(());
        }
        wait()
    }

    /// The images of a blit, source first.
    pub fn blit_submit(&self, src_handle: u64, dst_handle: u64) -> (r: Result<(&I, &I), BlitError>)
        ensures
            match r {
                Err(BlitError::NotInitialized) => !self@.initialized,
                Err(BlitError::SrcNotFound) => self@.initialized && !self@.images.contains_key(
                    src_handle,
                ),
                Err(BlitError::DstNotFound) => self@.initialized && self@.images.contains_key(
                    src_handle,
                ) && !self@.images.contains_key(dst_handle),
                Ok((src, dst)) => self@.initialized && self@.images.contains_key(src_handle)
                    && self@.images.contains_key(dst_handle) && *src == self@.images[src_handle]
                    && *dst == self@.images[dst_handle],
            },
    {
        if !self.initialized {
            return Err(BlitError::NotInitialized);
        }
        match self.images.get(&src_handle) {
            None => Err(BlitError::SrcNotFound),
            Some(src) => match self.images.get(&dst_handle) {
                None => Err(BlitError::DstNotFound),
                Some(dst) => Ok((src, dst)),
            },
        }
    }

    /// Forgets an image; the caller destroys what comes back.
    pub fn destroy_image(&mut self, handle: u64) -> (r: Option<I>)
        ensures
            r == (if old(self)@.images.contains_key(handle) {
                Some(old(self)@.images[handle])
            } else {
                None
            }),
            final(self)@ == (BlitState {
                images: old(self)@.images.remove(handle),
                ..old(self)@
            }),
            forall|next: u64| old(self)@.wf(next) ==> #[trigger] final(self)@.wf(next),
    {
        let r = self.images.remove(&handle);
        assert(self@.images =~= old(self)@.images.remove(handle));
        r
    }
}

/// Handles are given out once in a process: what one engine is given, no other
/// engine has, and the others stay as they are.
pub proof fn lemma_handles_are_shared<I>(other: BlitState<I>, next: u64)
    requires
        other.wf(next),
        next < u64::MAX,
    ensures
        !other.images.contains_key(next),
        other.wf((next + 1) as u64),
{
}

/// An image that is kept is found under its handle, and the others stay under
/// theirs.
pub proof fn lemma_kept_is_found<I>(s: BlitState<I>, handle: u64, image: I, other: u64)
    requires
        other != handle,
    ensures
        s.kept(handle, image).images.contains_key(handle),
        s.kept(handle, image).images[handle] == image,
        s.kept(handle, image).images.contains_key(other) == s.images.contains_key(other),
        s.images.contains_key(other) ==> s.kept(handle, image).images[other] == s.images[other],
        s.kept(handle, image).initialized == s.initialized,
{
}

/// Memory of any allowed type will do, and the first of them is taken.
pub proof fn lemma_first_allowed_is_first(flags: Seq<u32>, bits: u32, t: u32, k: u32)
    requires
        flags.len() <= 32,
        first_allowed(flags, bits, t),
        k < flags.len(),
    ensures
        (bits >> t) & 1 == 1,
        (bits >> k) & 1 == 1 ==> t <= k,
{
    let f = flags[k as int];
    assert(t < 32 ==> ((bits & (1u32 << t) != 0) <==> (bits >> t) & 1 == 1)) by (bit_vector);
    assert(k < 32 ==> ((bits & (1u32 << k) != 0) <==> (bits >> k) & 1 == 1)) by (bit_vector);
    assert(f & 0 == 0) by (bit_vector);
    if k < t && (bits >> k) & 1 == 1 {
        assert(crate::render::type_fits(flags, bits, 0, k as int));
    }
}

} // verus!
