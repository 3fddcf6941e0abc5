//! The App's state: its sessions, its connection and the frames that wait for
//! the screen.

use vstd::prelude::*;

verus! {

/// Pause before connecting again.
pub const RECONNECT_MS: u64 = 1000;

/// Longest wait of the render thread for a frame.
pub const FRAME_WAIT_MS: u64 = 100;

/// How the connection stands, as the status display is told it.
#[derive(Clone, Copy, Debug, PartialEq, Eq, Structural)]
pub enum AppState {
    Init,
    Active,
    Disconnected,
}

impl AppState {
    pub fn as_i32(self) -> (r: i32)
        ensures
            r == (match self {
                AppState::Init => 0int,
                AppState::Active => 2,
                AppState::Disconnected => 4,
            }),
    {
        match self {
            AppState::Init => 0,
            AppState::Active => 2,
            AppState::Disconnected => 4,
        }
    }
}

/// Who may touch a snapshot buffer.
#[derive(Clone, Copy, Debug, PartialEq, Eq, Structural)]
pub enum SnapState {
    /// The receiver may fill it.
    Free,
    /// Filled; the renderer may take it.
    Ready,
    /// The renderer reads it; the receiver keeps off.
    Reading,
}

struct SnapshotBuf<B> {
    data: B,
    w: u32,
    h: u32,
    state: SnapState,
    stamp: u64,
}

/// One snapshot buffer.
#[verifier::ext_equal]
pub struct SnapView {
    pub w: u32,
    pub h: u32,
    pub state: SnapState,
    /// Rises with every frame that is published.
    pub stamp: u64,
}

/// What a pool remembers.
#[verifier::ext_equal]
pub struct PoolState {
    pub bufs: Seq<SnapView>,
    pub next_stamp: u64,
}

impl PoolState {
    pub open spec fn wf(self) -> bool {
        &&& self.bufs.len() == 2
        &&& forall|i: int| 0 <= i < 2 ==> (#[trigger] self.bufs[i]).stamp < self.next_stamp
        &&& self.bufs[0].state == SnapState::Ready && self.bufs[1].state == SnapState::Ready
            ==> self.bufs[0].stamp != self.bufs[1].stamp
    }

    /// The first buffer that may be filled.
    pub open spec fn free(self) -> Option<usize> {
        if self.bufs[0].state == SnapState::Free {
            Some(0)
        } else if self.bufs[1].state == SnapState::Free {
            Some(1)
        } else {
            None
        }
    }

    /// The buffer with the newest frame that waits.
    pub open spec fn newest(self) -> Option<usize> {
        let r0 = self.bufs[0].state == SnapState::Ready;
        let r1 = self.bufs[1].state == SnapState::Ready;
        if r0 && (!r1 || self.bufs[0].stamp > self.bufs[1].stamp) {
            Some(0)
        } else if r1 {
            Some(1)
        } else {
            None
        }
    }

    pub open spec fn published(self, idx: usize, w: u32, h: u32) -> PoolState {
        PoolState {
            bufs: self.bufs.update(
                idx as int,
                SnapView { w, h, state: SnapState::Ready, stamp: self.next_stamp },
            ),
            next_stamp: (self.next_stamp + 1) as u64,
        }
    }

    pub open spec fn marked(self, idx: usize, state: SnapState) -> PoolState {
        PoolState {
            bufs: self.bufs.update(idx as int, SnapView { state, ..self.bufs[idx as int] }),
            ..self
        }
    }
}

/// Two buffers between the receiver, which fills one the moment a frame
/// arrives, and the renderer, which may have to wait for the window.
pub struct SnapshotPool<B> {
    first: SnapshotBuf<B>,
    second: SnapshotBuf<B>,
    next_stamp: u64,
}

impl<B> View for SnapshotBuf<B> {
    type V = SnapView;

    closed spec fn view(&self) -> SnapView {
        SnapView { w: self.w, h: self.h, state: self.state, stamp: self.stamp }
    }
}

impl<B> View for SnapshotPool<B> {
    type V = PoolState;

    closed spec fn view(&self) -> PoolState {
        PoolState { bufs: seq![self.first@, self.second@], next_stamp: self.next_stamp }
    }
}

impl<B> SnapshotPool<B> {
    /// The storage of a buffer.
    pub closed spec fn buffer(self, idx: int) -> B {
        if idx == 0 {
            self.first.data
        } else {
            self.second.data
        }
    }

    /// Both buffers are free.
    pub fn new(first: B, second: B) -> (r: Self)
        ensures
            r@ == (PoolState {
                bufs: seq![
                    SnapView { w: 0, h: 0, state: SnapState::Free, stamp: 0 },
                    SnapView { w: 0, h: 0, state: SnapState::Free, stamp: 0 },
                ],
                next_stamp: 1,
            }),
            r@.wf(),
            r.buffer(0) == first,
            r.buffer(1) == second,
    {
        SnapshotPool {
            first: SnapshotBuf { data: first, w: 0, h: 0, state: SnapState::Free, stamp: 0 },
            second: SnapshotBuf { data: second, w: 0, h: 0, state: SnapState::Free, stamp: 0 },
            next_stamp: 1,
        }
    }

    /// The number that the next frame gets.
    pub fn next_stamp(&self) -> (r: u64)
        ensures
            r == self@.next_stamp,
    {
        self.next_stamp
    }

    /// The first free buffer.
    pub fn free_slot(&self) -> (r: Option<usize>)
        requires
            self@.wf(),
        ensures
            r == self@.free(),
    {
        if self.first.state == SnapState::Free {
            Some(0)
        } else if self.second.state == SnapState::Free {
            Some(1)
        } else {
            None
        }
    }

    /// Marks a filled buffer as ready.
    pub fn publish(&mut self, idx: usize, w: u32, h: u32)
        requires
            old(self)@.wf(),
            idx < 2,
            old(self)@.bufs[idx as int].state == SnapState::Free,
            old(self)@.next_stamp < u64::MAX,
        ensures
            final(self)@ == old(self)@.published(idx, w, h),
            final(self)@.bufs[idx as int].w == w,
            final(self)@.bufs[idx as int].h == h,
            final(self)@.bufs[idx as int].state == SnapState::Ready,
            final(self)@.bufs[1 - idx] == old(self)@.bufs[1 - idx],
            final(self)@.wf(),
            forall|i: int| final(self).buffer(i) == old(self).buffer(i),
    {
        let stamp: u64 = self.next_stamp;
        if idx == 0 {
            self.first.w = w;
            self.first.h = h;
            self.first.state = SnapState::Ready;
            self.first.stamp = stamp;
        } else {
            self.second.w = w;
            self.second.h = h;
            self.second.state = SnapState::Ready;
            self.second.stamp = stamp;
        }
        self.next_stamp = stamp + 1;
        assert(self@.bufs =~= old(self)@.published(idx, w, h).bufs);
    }

    /// Lets `f` fill the first free buffer and publishes it. False when both
    /// are busy, or when `f` fails: the buffer then stays free.
    pub fn write_with<W: FnOnce(&B) -> bool>(&mut self, w: u32, h: u32, f: W) -> (r: bool)
        requires
            old(self)@.wf(),
            old(self)@.free() matches Some(idx) ==> old(self)@.next_stamp < u64::MAX
                && call_requires(f, (&old(self).buffer(idx as int),)),
        ensures
            final(self)@.wf(),
            match old(self)@.free() {
                None => !r && final(self)@ == old(self)@,
                Some(idx) => {
                    &&& call_ensures(f, (&old(self).buffer(idx as int),), r)
                    &&& r ==> final(self)@.bufs[idx as int].w == w
                    &&& r ==> final(self)@.bufs[idx as int].h == h
                    &&& final(self)@ == (if r {
                        old(self)@.published(idx, w, h)
                    } else {
                        old(self)@
                    })
                },
            },
            forall|i: int| final(self).buffer(i) == old(self).buffer(i),
    {
        match self.free_slot() {
            None => false,
            Some(idx) => {
                let ok: bool = f(self.data(idx));
                if ok {
                    self.publish(idx, w, h);
                }
                ok
            },
        }
    }

    /// Takes the newest ready buffer for reading: its index and its size.
    pub fn take_ready(&mut self) -> (r: Option<(usize, u32, u32)>)
        requires
            old(self)@.wf(),
        ensures
            match old(self)@.newest() {
                None => r is None && final(self)@ == old(self)@,
                Some(idx) => {
                    &&& r == Some(
                        (idx, old(self)@.bufs[idx as int].w, old(self)@.bufs[idx as int].h),
                    )
                    &&& final(self)@ == old(self)@.marked(idx, SnapState::Reading)
                },
            },
            final(self)@.wf(),
            forall|i: int| final(self).buffer(i) == old(self).buffer(i),
    {
        let r0: bool = self.first.state == SnapState::Ready;
        let r1: bool = self.second.state == SnapState::Ready;
        if r0 && (!r1 || self.first.stamp > self.second.stamp) {
            self.first.state = SnapState::Reading;
            assert(self@.bufs =~= old(self)@.marked(0, SnapState::Reading).bufs);
            Some((0, self.first.w, self.first.h))
        } else if r1 {
            self.second.state = SnapState::Reading;
            assert(self@.bufs =~= old(self)@.marked(1, SnapState::Reading).bufs);
            Some((1, self.second.w, self.second.h))
        } else {
            None
        }
    }

    /// The storage of a buffer.
    pub fn data(&self, idx: usize) -> (r: &B)
        requires
            idx < 2,
        ensures
            *r == self.buffer(idx as int),
    {
        if idx == 0 {
            &self.first.data
        } else {
            &self.second.data
        }
    }

    /// The renderer is through with a buffer.
    pub fn done(&mut self, idx: usize)
        requires
            old(self)@.wf(),
            idx < 2,
        ensures
            final(self)@ == old(self)@.marked(idx, SnapState::Free),
            final(self)@.wf(),
            forall|i: int| final(self).buffer(i) == old(self).buffer(i),
    {
        if idx == 0 {
            self.first.state = SnapState::Free;
        } else {
            self.second.state = SnapState::Free;
        }
        assert(self@.bufs =~= old(self)@.marked(idx, SnapState::Free).bufs);
    }
}

/// A published frame is what the renderer takes next, whatever waits beside it.
pub proof fn lemma_published_is_newest(s: PoolState, idx: usize, w: u32, h: u32)
    requires
        s.wf(),
        s.free() == Some(idx),
        s.next_stamp < u64::MAX,
    ensures
        s.published(idx, w, h).wf(),
        s.published(idx, w, h).newest() == Some(idx),
{
}

/// A buffer that the renderer reads is not offered to the receiver until the
/// renderer is done with it.
pub proof fn lemma_reading_is_kept_off(s: PoolState)
    requires
        s.wf(),
    ensures
        s.newest() matches Some(idx) ==> {
            let t = s.marked(idx, SnapState::Reading);
            &&& t.wf()
            &&& t.free() != Some(idx)
            &&& t.newest() != Some(idx)
            &&& t.marked(idx, SnapState::Free).bufs[idx as int].state == SnapState::Free
        },
{
}

/// States by handle.
pub struct Registry<S> {
    entries: Vec<(i64, S)>,
    next_id: i64,
}

/// Says of an entry that it has another handle.
pub open spec fn differs<S>(handle: i64) -> spec_fn((i64, S)) -> bool {
    |e: (i64, S)| e.0 != handle
}

/// All entries but those of a handle.
pub open spec fn dropped<S>(entries: Seq<(i64, S)>, handle: i64) -> Seq<(i64, S)> {
    entries.filter(differs(handle))
}

/// Entries in the order of registration, and the next handle.
#[verifier::ext_equal]
pub struct RegistryState<S> {
    pub entries: Seq<(i64, S)>,
    pub next_id: i64,
}

impl<S> RegistryState<S> {
    /// Handles are positive and never used twice.
    pub open spec fn wf(self) -> bool {
        &&& 1 <= self.next_id
        &&& forall|i: int|
            0 <= i < self.entries.len() ==> 1 <= (#[trigger] self.entries[i]).0 < self.next_id
        &&& forall|i: int, j: int|
            0 <= i < j < self.entries.len() ==> (#[trigger] self.entries[i]).0 < (
            #[trigger] self.entries[j]).0
    }

    /// One more state, under the next handle.
    pub open spec fn with(self, state: S) -> RegistryState<S> {
        RegistryState {
            entries: self.entries.push((self.next_id, state)),
            next_id: (self.next_id + 1) as i64,
        }
    }

    /// Without the state of a handle.
    pub open spec fn without(self, handle: i64) -> RegistryState<S> {
        RegistryState { entries: dropped(self.entries, handle), ..self }
    }

    /// The handle of the session, and whether it is a new one.
    pub open spec fn opening(self) -> (i64, bool) {
        if self.entries.len() > 0 {
            (self.entries[0].0, false)
        } else {
            (self.next_id, true)
        }
    }
}

impl<S> View for Registry<S> {
    type V = RegistryState<S>;

    closed spec fn view(&self) -> RegistryState<S> {
        RegistryState { entries: self.entries@, next_id: self.next_id }
    }
}

impl<S> Registry<S> {
    pub fn new() -> (r: Self)
        ensures
            r@.entries == Seq::<(i64, S)>::empty(),
            r@.next_id == 1,
            r@.wf(),
    {
        Registry { entries: Vec::new(), next_id: 1 }
    }

    /// The handle that is given out next.
    pub fn next_id(&self) -> (r: i64)
        ensures
            r == self@.next_id,
    {
        self.next_id
    }

    /// Adds a state under a new handle.
    pub fn register(&mut self, state: S) -> (r: i64)
        requires
            old(self)@.wf(),
            old(self)@.next_id < i64::MAX,
        ensures
            r == old(self)@.next_id,
            final(self)@ == old(self)@.with(state),
            final(self)@.wf(),
    {
        let ghost before = self@.entries;
        let id: i64 = self.next_id;
        self.next_id = id + 1;
        self.entries.push((id, state));
        proof {
            let now = self@.entries;
            assert(now == before.push((id, state)));
            assert forall|i: int| 0 <= i < now.len() implies 1 <= (#[trigger] now[i]).0
                < self.next_id by {
                if i < before.len() {
                    assert(before[i] == now[i]);
                }
            }
            assert forall|i: int, j: int| 0 <= i < j < now.len() implies (#[trigger] now[i]).0 < (
            #[trigger] now[j]).0 by {
                assert(before[i] == now[i]);
                if j < before.len() {
                    assert(before[j] == now[j]);
                }
            }
        }
        id
    }

    /// The state of a handle.
    pub fn find(&self, handle: i64) -> (r: Option<&S>)
        ensures
            r is Some <==> exists|i: int|
                0 <= i < self@.entries.len() && (#[trigger] self@.entries[i]).0 == handle,
            r matches Some(s) ==> exists|i: int|
                0 <= i < self@.entries.len() && (#[trigger] self@.entries[i]).0 == handle && *s
                    == self@.entries[i].1,
    {
        let mut i: usize = 0;
        while i < self.entries.len()
            invariant
                i <= self.entries@.len(),
                forall|k: int| 0 <= k < i ==> (#[trigger] self.entries@[k]).0 != handle,
            decreases self.entries@.len() - i,
        {
            if self.entries[i].0 == handle {
                assert(self@.entries[i as int].0 == handle);
                return Some(&self.entries[i].1);
            }
            i += 1;
        }
        None
    }

    /// The handle that was registered first, if any is left: a process has one
    /// session, and asking for another yields the one there is.
    pub fn first(&self) -> (r: Option<i64>)
        ensures
            r == (if self@.entries.len() > 0 {
                Some(self@.entries[0].0)
            } else {
                None
            }),
    {
        if self.entries.len() > 0 {
            Some(self.entries[0].0)
        } else {
            None
        }
    }

    /// The handle of the session: the one there is, or a new one for `state`.
    /// True: it is new, and its threads are to be started.
    pub fn open(&mut self, state: S) -> (r: (i64, bool))
        requires
            old(self)@.wf(),
            old(self)@.entries.len() == 0 ==> old(self)@.next_id < i64::MAX,
        ensures
            r == old(self)@.opening(),
            final(self)@ == (if r.1 {
                old(self)@.with(state)
            } else {
                old(self)@
            }),
            final(self)@.wf(),
    {
        match self.first() {
            Some(handle) => (handle, false),
            None => {
                let handle: i64 = self.register(state);
                (handle, true)
            },
        }
    }

    /// Forgets a handle.
    pub fn remove(&mut self, handle: i64)
        requires
            old(self)@.wf(),
        ensures
            final(self)@ == old(self)@.without(handle),
            final(self)@.wf(),
    {
        let mut i: usize = 0;
        let ghost all = self@.entries;
        let n: usize = self.entries.len();
        assert(all == self.entries@);
        while i < self.entries.len()
            invariant
                i <= self.entries@.len(),
                self.entries@ == all,
                all.len() == n,
                forall|k: int| 0 <= k < i ==> (#[trigger] all[k]).0 != handle,
                self.next_id == old(self).next_id,
            ensures
                self.entries@ == all,
                self.next_id == old(self).next_id,
                i <= all.len(),
                forall|k: int| 0 <= k < i ==> (#[trigger] all[k]).0 != handle,
                i < all.len() ==> all[i as int].0 == handle,
            decreases self.entries@.len() - i,
        {
            if self.entries[i].0 == handle {
                break ;
            }
            i += 1;
        }
        proof {
            lemma_filter_one(all, handle, i as int);
        }
        if i < self.entries.len() {
            let _ = self.entries.remove(i);
        }
    }
}

/// Filtering a handle out of a list that has it once, at `at`, or not at all.
proof fn lemma_filter_one<S>(all: Seq<(i64, S)>, handle: i64, at: int)
    requires
        0 <= at <= all.len(),
        forall|k: int| 0 <= k < at ==> (#[trigger] all[k]).0 != handle,
        at < all.len() ==> all[at].0 == handle,
        forall|i: int, j: int|
            0 <= i < j < all.len() ==> (#[trigger] all[i]).0 < (#[trigger] all[j]).0,
    ensures
        dropped(all, handle) == (if at < all.len() {
            all.remove(at)
        } else {
            all
        }),
    decreases all.len(),
{
    reveal(Seq::filter);
    let keep = differs(handle);
    if all.len() > 0 {
        let front = all.drop_last();
        if at < all.len() - 1 {
            lemma_filter_one(front, handle, at);
            assert(all[at].0 < all[all.len() - 1].0);
            assert(keep(all.last()));
            assert(front.remove(at).push(all.last()) =~= all.remove(at));
        } else {
            lemma_filter_one(front, handle, front.len() as int);
            if at < all.len() {
                assert(!keep(all.last()));
                assert(all.remove(at) =~= front);
            } else {
                assert(all[all.len() - 1].0 != handle);
                assert(front.push(all.last()) =~= all);
            }
        }
    }
}

/// A registered state is found under its handle and under no other, and not
/// once it is removed.
pub proof fn lemma_registered_is_found<S>(r: RegistryState<S>, state: S, i: int)
    requires
        r.wf(),
        0 <= i <= r.entries.len(),
    ensures
        r.with(state).entries[i].0 == r.next_id <==> i == r.entries.len(),
        r.with(state).entries.last() == (r.next_id, state),
        forall|k: int|
            0 <= k < r.with(state).without(r.next_id).entries.len() ==> (
            #[trigger] r.with(state).without(r.next_id).entries[k]).0 != r.next_id,
{
    let all = r.with(state).entries;
    let left = r.with(state).without(r.next_id).entries;
    assert forall|k: int| 0 <= k < left.len() implies (#[trigger] left[k]).0 != r.next_id by {
        all.lemma_filter_pred(differs(r.next_id), k);
    }
    if i < r.entries.len() {
        assert(all[i] == r.entries[i]);
    }
}

/// However often a session is opened, there is one: every further time yields
/// the handle that the first one did, and starts nothing.
pub proof fn lemma_opening_again<S>(r: RegistryState<S>, state: S)
    requires
        r.wf(),
    ensures
        ({
            let (handle, fresh) = r.opening();
            let after = if fresh {
                r.with(state)
            } else {
                r
            };
            after.opening() == (handle, false)
        }),
{
}

/// The display's settings.
#[derive(Clone, Copy, Debug, PartialEq, Eq, Structural)]
pub struct DisplayConfig {
    pub width: u32,
    pub height: u32,
    pub refresh_millihz: u32,
    pub dpi: u32,
    pub frame_mode: u32,
}

/// How the connection to the server stands.
#[derive(Clone, Copy, Debug, PartialEq, Eq, Structural)]
pub struct Connection {
    pub state: AppState,
    /// There is a session now.
    pub session: bool,
    /// There has been one.
    pub had_session: bool,
    /// Settings that came while there was no session.
    pub pending_config: Option<DisplayConfig>,
    /// The App is being shut down.
    pub stopped: bool,
}

impl Connection {
    /// With a session the App is active; without one the state says whether
    /// there has been any.
    pub open spec fn wf(self) -> bool {
        &&& self.session ==> self.had_session && self.state == AppState::Active
        &&& !self.session ==> self.state == (if self.had_session {
            AppState::Disconnected
        } else {
            AppState::Init
        })
    }

    /// The state once a session is there.
    pub open spec fn opened(self) -> Connection {
        Connection {
            state: AppState::Active,
            session: true,
            had_session: true,
            pending_config: None,
            ..self
        }
    }

    /// The state once the session is over.
    pub open spec fn ended(self) -> Connection {
        Connection { state: AppState::Disconnected, session: false, ..self }
    }

    /// The state once connecting failed.
    pub open spec fn failed(self) -> Connection {
        Connection {
            state: if self.had_session {
                AppState::Disconnected
            } else {
                AppState::Init
            },
            session: false,
            ..self
        }
    }

    /// The state once new settings came.
    pub open spec fn configured(self, config: DisplayConfig) -> Connection {
        if self.session {
            self
        } else {
            Connection { pending_config: Some(config), ..self }
        }
    }

    pub fn new() -> (r: Self)
        ensures
            r.wf(),
            r == (Connection {
                state: AppState::Init,
                session: false,
                had_session: false,
                pending_config: None,
                stopped: false,
            }),
    {
        Connection {
            state: AppState::Init,
            session: false,
            had_session: false,
            pending_config: None,
            stopped: false,
        }
    }

    /// A session is there, and live at once. The settings that waited for it
    /// are to be sent.
    pub fn connected(&mut self) -> (r: Option<DisplayConfig>)
        ensures
            r == old(self).pending_config,
            *final(self) == old(self).opened(),
            final(self).wf(),
    {
        let config = self.pending_config;
        self.state = AppState::Active;
        self.session = true;
        self.had_session = true;
        self.pending_config = None;
        config
    }

    /// A frame with pixels arrived. It has to be handed back, whether or not
    /// there was room for it.
    pub fn frame_arrived(&mut self)
        ensures
            *final(self) == (Connection { state: AppState::Active, ..*old(self) }),
            old(self).wf() && old(self).session ==> final(self).wf(),
    {
        self.state = AppState::Active;
    }

    /// The session is over.
    pub fn session_ended(&mut self)
        ensures
            *final(self) == old(self).ended(),
            old(self).wf() && old(self).session ==> final(self).wf(),
    {
        self.state = AppState::Disconnected;
        self.session = false;
    }

    /// Connecting failed. That counts as a lost session once there was one.
    pub fn connect_failed(&mut self)
        ensures
            *final(self) == old(self).failed(),
            final(self).wf(),
    {
        self.state = if self.had_session {
            AppState::Disconnected
        } else {
            AppState::Init
        };
        self.session = false;
    }

    /// New settings: to be sent now, or kept for the next session. Later ones
    /// replace those that are kept.
    pub fn on_config(&mut self, config: DisplayConfig) -> (r: Option<DisplayConfig>)
        ensures
            r == (if old(self).session {
                Some(config)
            } else {
                None
            }),
            *final(self) == old(self).configured(config),
            old(self).wf() ==> final(self).wf(),
    {
        if self.session {
            Some(config)
        } else {
            self.pending_config = Some(config);
            None
        }
    }

    /// The App shuts down; the threads end at their next turn.
    pub fn stop(&mut self)
        ensures
            *final(self) == (Connection { stopped: true, ..*old(self) }),
            old(self).wf() ==> final(self).wf(),
    {
        self.stopped = true;
    }
}

/// What happens to the receiving thread.
#[derive(Clone, Copy, Debug, PartialEq, Eq, Structural)]
pub enum RecvEvent {
    /// It begins a turn.
    Turn,
    /// The server took the connection.
    Connected,
    ConnectFailed,
    /// A frame with pixels arrived.
    Frame,
    /// The session is over, for whatever reason.
    Ended,
}

/// What the receiving thread does next.
#[derive(Clone, Copy, Debug, PartialEq, Eq, Structural)]
pub enum RecvAction {
    /// End the thread.
    Stop,
    Connect,
    /// Send these settings, tell how the connection stands, then receive.
    Welcome { config: Option<DisplayConfig> },
    /// Wake the renderer and hand the frame back.
    Release,
    /// Tell how the connection stands, drop what is left of the session, and
    /// begin a turn after this long.
    Retry { after_ms: u64 },
}

impl Connection {
    /// The state after an event, and what follows.
    pub open spec fn stepped(self, event: RecvEvent) -> (Connection, RecvAction) {
        match event {
            RecvEvent::Turn => (
                self,
                if self.stopped {
                    RecvAction::Stop
                } else {
                    RecvAction::Connect
                },
            ),
            RecvEvent::Connected => (
                self.opened(),
                RecvAction::Welcome { config: self.pending_config },
            ),
            RecvEvent::ConnectFailed => (
                self.failed(),
                RecvAction::Retry { after_ms: RECONNECT_MS },
            ),
            RecvEvent::Frame => (
                Connection { state: AppState::Active, ..self },
                RecvAction::Release,
            ),
            RecvEvent::Ended => (self.ended(), RecvAction::Retry { after_ms: RECONNECT_MS }),
        }
    }

    /// The state after a run of events.
    pub open spec fn after(self, events: Seq<RecvEvent>) -> Connection
        decreases events.len(),
    {
        if events.len() == 0 {
            self
        } else {
            self.after(events.drop_last()).stepped(events.last()).0
        }
    }

    /// One step of the receiving thread.
    pub fn recv_step(&mut self, event: RecvEvent) -> (r: RecvAction)
        ensures
            (*final(self), r) == old(self).stepped(event),
            old(self).wf() && (event is Frame || event is Ended ==> old(self).session)
                ==> final(self).wf(),
    {
        match event {
            RecvEvent::Turn => if self.stopped {
                RecvAction::Stop
            } else {
                RecvAction::Connect
            },
            RecvEvent::Connected => {
                let config = self.connected();
                RecvAction::Welcome { config }
            },
            RecvEvent::ConnectFailed => {
                self.connect_failed();
                RecvAction::Retry { after_ms: RECONNECT_MS }
            },
            RecvEvent::Frame => {
                self.frame_arrived();
                RecvAction::Release
            },
            RecvEvent::Ended => {
                self.session_ended();
                RecvAction::Retry { after_ms: RECONNECT_MS }
            },
        }
    }
}

/// Nothing that happens to the connection ends the thread or makes it forget
/// that there was a session: it connects again and again, and after the first
/// session it never reports to be at the start.
pub proof fn lemma_it_keeps_trying(c: Connection, events: Seq<RecvEvent>)
    requires
        c.wf(),
    ensures
        c.after(events).stopped == c.stopped,
        !c.stopped ==> c.after(events).stepped(RecvEvent::Turn).1 is Connect,
        c.had_session ==> c.after(events).had_session && c.after(events).state != AppState::Init,
    decreases events.len(),
{
    if events.len() > 0 {
        lemma_it_keeps_trying(c, events.drop_last());
    }
}

/// Settings that come while there is no session are sent with the next one, the
/// latest of them, and once.
pub proof fn lemma_latest_settings_are_sent(c: Connection, a: DisplayConfig, b: DisplayConfig)
    requires
        !c.session,
    ensures
        c.configured(a).configured(b).pending_config == Some(b),
        c.configured(a).configured(b).opened().pending_config is None,
        c.opened().configured(a) == c.opened(),
        c.opened().ended().configured(b).pending_config == Some(b),
{
}

/// What the render thread does next.
#[derive(Clone, Copy, Debug, PartialEq, Eq, Structural)]
pub enum RenderStep {
    /// Draw the frame that was taken.
    Present,
    /// Blank the screen, then wait.
    BlankAndWait,
    Wait,
}

/// The render thread's memory: the screen is blanked once per disconnection.
#[derive(Clone, Copy, Debug, PartialEq, Eq, Structural)]
pub struct RenderLoop {
    pub blanked: bool,
}

impl RenderLoop {
    pub fn new() -> (r: Self)
        ensures
            !r.blanked,
    {
        RenderLoop { blanked: false }
    }

    pub fn step(&mut self, frame_taken: bool, state: AppState) -> (r: RenderStep)
        ensures
            frame_taken ==> r is Present && !final(self).blanked,
            !frame_taken && state != AppState::Active && !old(self).blanked ==> r is BlankAndWait
                && final(self).blanked,
            !frame_taken && (state == AppState::Active || old(self).blanked) ==> r is Wait
                && *final(self) == *old(self),
    {
        if frame_taken {
            self.blanked = false;
            RenderStep::Present
        } else if state != AppState::Active && !self.blanked {
            self.blanked = true;
            RenderStep::BlankAndWait
        } else {
            RenderStep::Wait
        }
    }
}

/// The size that a frame was written with is the size that it is taken with, and
/// a frame in the other buffer keeps its own.
pub proof fn lemma_size_is_kept(s: PoolState, idx: usize, w: u32, h: u32)
    requires
        s.wf(),
        idx < 2,
        s.bufs[idx as int].state == SnapState::Free,
        s.next_stamp < u64::MAX,
    ensures
        ({
            let p = s.published(idx, w, h);
            let t = p.marked(idx, SnapState::Reading);
            &&& p.newest() == Some(idx)
            &&& p.bufs[idx as int].w == w && p.bufs[idx as int].h == h
            &&& p.bufs[idx as int].state == SnapState::Ready
            &&& p.bufs[1 - idx] == s.bufs[1 - idx]
            &&& t.bufs[idx as int].w == w && t.bufs[idx as int].h == h
            &&& t.bufs[idx as int].state == SnapState::Reading
            &&& t.bufs[1 - idx] == s.bufs[1 - idx]
        }),
{
}

/// The buffer that is filled next is free, and there is one unless both are
/// busy; the first is preferred.
pub proof fn lemma_free_is_free(s: PoolState)
    requires
        s.wf(),
    ensures
        s.free() matches Some(idx) ==> idx < 2 && s.bufs[idx as int].state == SnapState::Free && (idx
            == 1 ==> s.bufs[0].state != SnapState::Free),
        s.free() is None <==> s.bufs[0].state != SnapState::Free && s.bufs[1].state
            != SnapState::Free,
{
}

/// The buffer that is drawn next waits to be drawn, and no frame that waits was
/// published after it. There is one unless none waits.
pub proof fn lemma_newest_waits(s: PoolState)
    requires
        s.wf(),
    ensures
        s.newest() matches Some(idx) ==> idx < 2 && s.bufs[idx as int].state == SnapState::Ready
            && (forall|k: int|
            0 <= k < 2 && (#[trigger] s.bufs[k]).state == SnapState::Ready ==> s.bufs[k].stamp
                <= s.bufs[idx as int].stamp),
        s.newest() is None <==> s.bufs[0].state != SnapState::Ready && s.bufs[1].state
            != SnapState::Ready,
{
}

/// Each frame is published under a number of its own, higher than all before it.
pub proof fn lemma_stamps_rise(s: PoolState, idx: usize, w: u32, h: u32)
    requires
        s.wf(),
        idx < 2,
        s.bufs[idx as int].state == SnapState::Free,
        s.next_stamp < u64::MAX,
    ensures
        ({
            let p = s.published(idx, w, h);
            &&& p.wf()
            &&& p.next_stamp == s.next_stamp + 1
            &&& p.bufs[idx as int].stamp == s.next_stamp
            &&& p.bufs[idx as int].stamp > s.bufs[0].stamp
            &&& p.bufs[idx as int].stamp > s.bufs[1].stamp
        }),
{
}

/// Giving a buffer another state changes nothing else of it and nothing of the
/// other.
pub proof fn lemma_marking_keeps_frames(s: PoolState, idx: usize, state: SnapState)
    requires
        s.wf(),
        idx < 2,
    ensures
        ({
            let t = s.marked(idx, state);
            &&& t.bufs.len() == 2
            &&& t.bufs[idx as int].state == state
            &&& t.bufs[idx as int].w == s.bufs[idx as int].w
            &&& t.bufs[idx as int].h == s.bufs[idx as int].h
            &&& t.bufs[idx as int].stamp == s.bufs[idx as int].stamp
            &&& t.bufs[1 - idx] == s.bufs[1 - idx]
            &&& t.next_stamp == s.next_stamp
        }),
{
}

/// What is registered is kept: a new state takes a handle that none had and
/// leaves all others, and removing one leaves all others, in order.
pub proof fn lemma_others_stay<S>(r: RegistryState<S>, state: S, handle: i64)
    requires
        r.wf(),
        r.next_id < i64::MAX,
    ensures
        r.with(state).next_id == r.next_id + 1,
        r.with(state).entries.len() == r.entries.len() + 1,
        forall|i: int|
            0 <= i < r.entries.len() ==> #[trigger] r.with(state).entries[i] == r.entries[i],
        r.without(handle).next_id == r.next_id,
        r.without(handle).wf(),
        forall|e: (i64, S)|
            #[trigger] r.without(handle).entries.contains(e) <==> r.entries.contains(e) && e.0
                != handle,
{
    let all = r.entries;
    let left = r.without(handle).entries;
    if exists|at: int| 0 <= at < all.len() && (#[trigger] all[at]).0 == handle {
        let at = choose|at: int| 0 <= at < all.len() && (#[trigger] all[at]).0 == handle;
        assert forall|k: int| 0 <= k < at implies (#[trigger] all[k]).0 != handle by {
            assert(all[k].0 < all[at].0);
        }
        lemma_filter_one(all, handle, at);
        assert forall|e: (i64, S)| all.contains(e) && e.0 != handle implies left.contains(e) by {
            let k = choose|k: int| 0 <= k < all.len() && all[k] == e;
            if k < at {
                assert(left[k] == e);
            } else {
                assert(left[k - 1] == e);
            }
        }
        assert forall|e: (i64, S)| left.contains(e) implies all.contains(e) && e.0 != handle by {
            let k = choose|k: int| 0 <= k < left.len() && left[k] == e;
            if k < at {
                assert(all[k] == e);
                assert(all[k].0 < all[at].0);
            } else {
                assert(all[k + 1] == e);
                assert(all[at].0 < all[k + 1].0);
            }
        }
        assert forall|i: int, j: int| 0 <= i < j < left.len() implies (#[trigger] left[i]).0 < (
        #[trigger] left[j]).0 by {
            let (p, q) = (if i < at { i } else { i + 1 }, if j < at { j } else { j + 1 });
            assert(left[i] == all[p] && left[j] == all[q]);
            assert(all[p].0 < all[q].0);
        }
        assert forall|i: int| 0 <= i < left.len() implies 1 <= (#[trigger] left[i]).0
            < r.next_id by {
            let p = if i < at { i } else { i + 1 };
            assert(left[i] == all[p]);
        }
    } else {
        lemma_filter_one(all, handle, all.len() as int);
    }
}

/// A session that is there is the one that is opened; without one, a handle that
/// none had is opened.
pub proof fn lemma_opening_takes_the_first<S>(r: RegistryState<S>)
    requires
        r.wf(),
    ensures
        r.opening().1 <==> r.entries.len() == 0,
        !r.opening().1 ==> r.opening().0 == r.entries[0].0,
        r.opening().1 ==> r.opening().0 == r.next_id,
{
}

/// The connection is told as it stands: with a session it is active, and once a
/// session is over, or the server cannot be reached again, it is lost. Before the
/// first session it is at the start. Each attempt that fails is repeated after a
/// second.
pub proof fn lemma_connection_is_told(c: Connection)
    requires
        c.wf(),
    ensures
        ({
            let (t, action) = c.stepped(RecvEvent::Connected);
            &&& t.session && t.had_session && t.state == AppState::Active
            &&& t.pending_config is None
            &&& t.stopped == c.stopped
            &&& action == (RecvAction::Welcome { config: c.pending_config })
        }),
        ({
            let (t, action) = c.stepped(RecvEvent::ConnectFailed);
            &&& !t.session && t.had_session == c.had_session
            &&& t.state == (if c.had_session {
                AppState::Disconnected
            } else {
                AppState::Init
            })
            &&& t.pending_config == c.pending_config && t.stopped == c.stopped
            &&& action == (RecvAction::Retry { after_ms: 1000 })
        }),
        ({
            let (t, action) = c.stepped(RecvEvent::Ended);
            &&& !t.session && t.had_session == c.had_session
            &&& t.state == AppState::Disconnected
            &&& t.pending_config == c.pending_config && t.stopped == c.stopped
            &&& action == (RecvAction::Retry { after_ms: 1000 })
        }),
        ({
            let (t, action) = c.stepped(RecvEvent::Frame);
            &&& t.state == AppState::Active
            &&& t.session == c.session && t.had_session == c.had_session
            &&& t.pending_config == c.pending_config && t.stopped == c.stopped
            &&& action == RecvAction::Release
        }),
        c.stepped(RecvEvent::Turn) == (c, if c.stopped {
            RecvAction::Stop
        } else {
            RecvAction::Connect
        }),
{
}

/// Settings that come during a session are not kept for the next one; those that
/// come without one change nothing but what is kept.
pub proof fn lemma_settings_wait(c: Connection, config: DisplayConfig)
    ensures
        c.session ==> c.configured(config) == c,
        !c.session ==> c.configured(config) == (Connection {
            pending_config: Some(config),
            ..c
        }),
        !c.session ==> c.configured(config).stepped(RecvEvent::Connected).1 == (RecvAction::Welcome {
            config: Some(config),
        }),
{
}

} // verus!
