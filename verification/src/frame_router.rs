//! Which committed frames go to the App, and when.
//!
//! At most [`MAX_IN_FLIGHT`] frames are with the App at a time. A frame that
//! finds the window full is held; a newer one replaces it. Buffers travel with
//! their descriptors the first time they are sent in a session.

use std::collections::HashSet;
use vstd::prelude::*;
use vstd::std_specs::hash::*;

verus! {

broadcast use vstd::std_specs::hash::group_hash_axioms;

/// Frames that the App may hold unacknowledged.
pub const MAX_IN_FLIGHT: usize = 2;

#[derive(Debug, Clone, Copy, PartialEq, Eq, Structural)]
pub enum RouterEvent {
    /// A surface was committed. The router numbers frames and decides about
    /// descriptors itself: `has_fds` and `serial` are what the client side
    /// noted, and have no influence.
    Commit { buffer_id: u32, has_fds: bool, serial: u64 },
    /// The App acknowledged all frames up to `serial`.
    AppAck { serial: u64 },
    /// A session with the App begins.
    AppConnected,
    /// The session with the App is over.
    AppLost,
    /// The compositor that commits is gone.
    CompositorLost,
}

#[derive(Debug, Clone, Copy, PartialEq, Eq, Structural)]
pub enum RouterAction {
    /// Send a frame. `has_fds`: this buffer is sent for the first time in the
    /// session, so its descriptors go along.
    EnqueueFrame { buffer_id: u32, serial: u64, has_fds: bool },
    ReleaseBuffer { buffer_id: u32 },
    /// Fire a frame callback.
    FireCallback,
}

/// What a router remembers, as mathematics.
#[verifier::ext_equal]
pub struct RouterState {
    pub serial: u64,
    pub pending: Option<(u64, u32)>,
    pub in_flight: Seq<(u64, u32)>,
    pub app_connected: bool,
    pub compositor_connected: bool,
    /// Buffers that were sent with their descriptors in this session.
    pub registered: Set<u32>,
}

pub open spec fn releases(entries: Seq<(u64, u32)>) -> Seq<RouterAction> {
    Seq::new(entries.len(), |i: int| RouterAction::ReleaseBuffer { buffer_id: entries[i].1 })
}

pub open spec fn repeated(action: RouterAction, n: nat) -> Seq<RouterAction> {
    Seq::new(n, |i: int| action)
}

/// The entries that an acknowledgement of `serial` leaves in flight.
pub open spec fn unacked(entries: Seq<(u64, u32)>, serial: u64) -> Seq<(u64, u32)> {
    entries.filter(|e: (u64, u32)| e.0 > serial)
}

impl RouterState {
    /// The state with one more frame sent.
    pub open spec fn sent(self, buffer_id: u32) -> RouterState {
        RouterState {
            in_flight: self.in_flight.push((self.serial, buffer_id)),
            registered: self.registered.insert(buffer_id),
            ..self
        }
    }

    /// The action that sends it.
    pub open spec fn send_action(self, buffer_id: u32) -> RouterAction {
        RouterAction::EnqueueFrame {
            buffer_id,
            serial: self.serial,
            has_fds: !self.registered.contains(buffer_id),
        }
    }

    pub open spec fn numbered(self) -> RouterState {
        RouterState { serial: (self.serial + 1) as u64, ..self }
    }

    /// The state and the actions that an event leads to.
    pub open spec fn step(self, event: RouterEvent) -> (RouterState, Seq<RouterAction>) {
        match event {
            RouterEvent::AppConnected => (
                RouterState {
                    app_connected: true,
                    registered: Set::empty(),
                    in_flight: seq![],
                    pending: None,
                    ..self
                },
                seq![],
            ),
            RouterEvent::AppLost => (
                RouterState {
                    app_connected: false,
                    registered: Set::empty(),
                    in_flight: seq![],
                    pending: None,
                    ..self
                },
                releases(self.in_flight) + repeated(
                    RouterAction::FireCallback,
                    self.in_flight.len() + if self.pending is Some { 1nat } else { 0 },
                ),
            ),
            RouterEvent::CompositorLost => (
                RouterState { compositor_connected: false, pending: None, ..self },
                seq![],
            ),
            RouterEvent::Commit { buffer_id, .. } => {
                let s = RouterState { pending: None, compositor_connected: true, ..self.numbered() };
                let replaced = repeated(
                    RouterAction::FireCallback,
                    if self.pending is Some { 1 } else { 0 },
                );
                if !s.app_connected {
                    (s, replaced.push(RouterAction::FireCallback))
                } else if s.in_flight.len() < MAX_IN_FLIGHT {
                    (s.sent(buffer_id), replaced.push(s.send_action(buffer_id)))
                } else {
                    (RouterState { pending: Some((s.serial, buffer_id)), ..s }, replaced)
                }
            },
            RouterEvent::AppAck { serial } => {
                let kept = unacked(self.in_flight, serial);
                let released = (self.in_flight.len() - kept.len()) as nat;
                let freed = repeated(RouterAction::ReleaseBuffer { buffer_id: 0 }, released);
                let done = repeated(
                    RouterAction::FireCallback,
                    if released > 0 { 1 } else { 0 },
                );
                let s = RouterState { in_flight: kept, ..self };
                match self.pending {
                    Some((_, buffer_id)) if kept.len() < MAX_IN_FLIGHT => {
                        let t = RouterState { pending: None, ..s.numbered() };
                        (t.sent(buffer_id), freed.push(t.send_action(buffer_id)) + done)
                    },
                    _ => (s, freed + done),
                }
            },
        }
    }

    /// The event numbers a frame: one that is committed, or the held one that an
    /// acknowledgement makes room for.
    pub open spec fn takes_number(self, event: RouterEvent) -> bool {
        match event {
            RouterEvent::Commit { .. } => true,
            RouterEvent::AppAck { serial } => self.pending is Some && unacked(
                self.in_flight,
                serial,
            ).len() < MAX_IN_FLIGHT,
            _ => false,
        }
    }

    /// What holds of every state that a router reaches.
    pub open spec fn wf(self) -> bool {
        &&& self.in_flight.len() <= MAX_IN_FLIGHT
        &&& forall|i: int| 0 <= i < self.in_flight.len() ==> (#[trigger] self.in_flight[i]).0
            <= self.serial
        &&& forall|i: int, j: int|
            0 <= i < j < self.in_flight.len() ==> (#[trigger] self.in_flight[i]).0 < (
            #[trigger] self.in_flight[j]).0
        &&& forall|i: int|
            0 <= i < self.in_flight.len() ==> self.registered.contains(
                (#[trigger] self.in_flight[i]).1,
            )
        &&& self.pending is Some ==> self.app_connected && self.in_flight.len() == MAX_IN_FLIGHT
        &&& !self.app_connected ==> self.in_flight.len() == 0 && self.registered == Set::<
            u32,
        >::empty()
    }
}

pub struct FrameRouter {
    pub serial: u64,
    /// The held frame: its number and its buffer.
    pub pending_frame: Option<(u64, u32)>,
    /// Frames with the App, oldest first.
    pub in_flight: Vec<(u64, u32)>,
    pub app_connected: bool,
    pub compositor_connected: bool,
    pub registered: HashSet<u32>,
}

impl View for FrameRouter {
    type V = RouterState;

    open spec fn view(&self) -> RouterState {
        RouterState {
            serial: self.serial,
            pending: self.pending_frame,
            in_flight: self.in_flight@,
            app_connected: self.app_connected,
            compositor_connected: self.compositor_connected,
            registered: self.registered@,
        }
    }
}

impl FrameRouter {
    pub fn new() -> (r: Self)
        ensures
            r@ == (RouterState {
                serial: 0,
                pending: None,
                in_flight: seq![],
                app_connected: false,
                compositor_connected: false,
                registered: Set::empty(),
            }),
            r@.wf(),
    {
        FrameRouter {
            serial: 0,
            pending_frame: None,
            in_flight: Vec::with_capacity(4),
            app_connected: false,
            compositor_connected: false,
            registered: HashSet::new(),
        }
    }

    /// Sends one frame under the current number.
    fn send(&mut self, buffer_id: u32) -> (r: RouterAction)
        ensures
            final(self)@ == old(self)@.sent(buffer_id),
            r == old(self)@.send_action(buffer_id),
    {
        let first: bool = !self.registered.contains(&buffer_id);
        if first {
            self.registered.insert(buffer_id);
        }
        self.in_flight.push((self.serial, buffer_id));
        assert(self@ =~= old(self)@.sent(buffer_id));
        RouterAction::EnqueueFrame { buffer_id, serial: self.serial, has_fds: first }
    }

    /// Takes one event in and says what is to be done.
    pub fn handle(&mut self, event: RouterEvent) -> (actions: Vec<RouterAction>)
        requires
            old(self)@.wf(),
            old(self)@.takes_number(event) ==> old(self).serial < u64::MAX,
        ensures
            (final(self)@, actions@) == old(self)@.step(event),
            final(self)@.wf(),
    {
        proof {
            lemma_wf_step(self@, event);
        }
        let mut actions: Vec<RouterAction> = Vec::new();
        match event {
            RouterEvent::AppConnected => {
                self.app_connected = true;
                self.registered.clear();
                self.in_flight.clear();
                self.pending_frame = None;
            },
            RouterEvent::AppLost => {
                self.app_connected = false;
                self.registered.clear();
                let ghost entries = self.in_flight@;
                let n: usize = self.in_flight.len();
                let mut i: usize = 0;
                while i < n
                    invariant
                        i <= n,
                        n == self.in_flight@.len(),
                        actions@ == releases(self.in_flight@.take(i as int)),
                    decreases n - i,
                {
                    actions.push(RouterAction::ReleaseBuffer { buffer_id: self.in_flight[i].1 });
                    i += 1;
                    assert(actions@ =~= releases(self.in_flight@.take(i as int)));
                }
                assert(entries.take(n as int) =~= entries);
                self.in_flight.clear();
                let mut callbacks: usize = n;
                if self.pending_frame.is_some() {
                    callbacks = callbacks + 1;
                }
                self.pending_frame = None;
                push_repeated(&mut actions, RouterAction::FireCallback, callbacks);
            },
            RouterEvent::CompositorLost => {
                self.compositor_connected = false;
                self.pending_frame = None;
            },
            RouterEvent::Commit { buffer_id, .. } => {
                self.serial = self.serial + 1;
                self.compositor_connected = true;
                if self.pending_frame.is_some() {
                    actions.push(RouterAction::FireCallback);
                }
                self.pending_frame = None;
                if !self.app_connected {
                    actions.push(RouterAction::FireCallback);
                } else if self.in_flight.len() < MAX_IN_FLIGHT {
                    let action = self.send(buffer_id);
                    actions.push(action);
                } else {
                    self.pending_frame = Some((self.serial, buffer_id));
                }
            },
            RouterEvent::AppAck { serial: ack_serial } => {
                let kept = retain_unacked(&self.in_flight, ack_serial);
                let released: usize = self.in_flight.len() - kept.len();
                self.in_flight = kept;
                push_repeated(
                    &mut actions,
                    RouterAction::ReleaseBuffer { buffer_id: 0 },
                    released,
                );
                if self.in_flight.len() < MAX_IN_FLIGHT {
                    if let Some((_, buffer_id)) = self.pending_frame {
                        self.pending_frame = None;
                        self.serial = self.serial + 1;
                        let action = self.send(buffer_id);
                        actions.push(action);
                    }
                }
                if released > 0 {
                    actions.push(RouterAction::FireCallback);
                }
            },
        }
        assert(self@ =~= old(self)@.step(event).0);
        assert(actions@ =~= old(self)@.step(event).1);
        actions
    }
}

fn push_repeated(actions: &mut Vec<RouterAction>, action: RouterAction, n: usize)
    ensures
        final(actions)@ == old(actions)@ + repeated(action, n as nat),
{
    let mut i: usize = 0;
    while i < n
        invariant
            i <= n,
            actions@ == old(actions)@ + repeated(action, i as nat),
        decreases n - i,
    {
        actions.push(action);
        i += 1;
        assert(actions@ =~= old(actions)@ + repeated(action, i as nat));
    }
    assert(actions@ =~= old(actions)@ + repeated(action, n as nat));
}

fn retain_unacked(entries: &Vec<(u64, u32)>, serial: u64) -> (kept: Vec<(u64, u32)>)
    ensures
        kept@ == unacked(entries@, serial),
        kept@.len() <= entries@.len(),
{
    let mut kept: Vec<(u64, u32)> = Vec::new();
    let mut i: usize = 0;
    while i < entries.len()
        invariant
            i <= entries@.len(),
            kept@ == unacked(entries@.take(i as int), serial),
            kept@.len() <= i,
        decreases entries@.len() - i,
    {
        let entry: (u64, u32) = entries[i];
        proof {
            reveal(Seq::filter);
            assert(entries@.take(i + 1).drop_last() =~= entries@.take(i as int));
        }
        if entry.0 > serial {
            kept.push(entry);
        }
        i += 1;
    }
    assert(entries@.take(i as int) =~= entries@);
    kept
}

/// An acknowledgement keeps entries, in order, and each kept one is newer.
proof fn lemma_unacked(entries: Seq<(u64, u32)>, serial: u64)
    requires
        forall|i: int, j: int|
            0 <= i < j < entries.len() ==> (#[trigger] entries[i]).0 < (#[trigger] entries[j]).0,
    ensures
        ({
            let kept = unacked(entries, serial);
            &&& kept.len() <= entries.len()
            &&& forall|k: int| 0 <= k < kept.len() ==> entries.contains(#[trigger] kept[k])
            &&& forall|k: int| 0 <= k < kept.len() ==> (#[trigger] kept[k]).0 > serial
            &&& forall|i: int, j: int|
                0 <= i < j < kept.len() ==> (#[trigger] kept[i]).0 < (#[trigger] kept[j]).0
        }),
    decreases entries.len(),
{
    reveal(Seq::filter);
    if entries.len() > 0 {
        let front = entries.drop_last();
        lemma_unacked(front, serial);
        let kept = unacked(entries, serial);
        let before = unacked(front, serial);
        assert forall|k: int| 0 <= k < kept.len() implies entries.contains(#[trigger] kept[k]) by {
            if k < before.len() {
                assert(front.contains(before[k]));
                let at = choose|at: int| 0 <= at < front.len() && front[at] == before[k];
                assert(entries[at] == kept[k]);
            } else {
                assert(entries[entries.len() - 1] == kept[k]);
            }
        }
        assert forall|i: int, j: int| 0 <= i < j < kept.len() implies (#[trigger] kept[i]).0 < (
        #[trigger] kept[j]).0 by {
            if j >= before.len() {
                assert(front.contains(before[i]));
                let at = choose|at: int| 0 <= at < front.len() && front[at] == before[i];
                assert(entries[at].0 < entries[entries.len() - 1].0);
            }
        }
    }
}

/// No event leads out of the well-formed states: the window is never exceeded,
/// numbers in flight rise, and a frame is only held while the window is full.
pub proof fn lemma_wf_step(s: RouterState, event: RouterEvent)
    requires
        s.wf(),
        s.takes_number(event) ==> s.serial < u64::MAX,
    ensures
        s.step(event).0.wf(),
{
    if let RouterEvent::AppAck { serial } = event {
        lemma_unacked(s.in_flight, serial);
        let kept = unacked(s.in_flight, serial);
        assert forall|k: int| 0 <= k < kept.len() implies (#[trigger] kept[k]).0 <= s.serial
            && s.registered.contains(kept[k].1) by {
            assert(s.in_flight.contains(kept[k]));
        }
    }
}

/// An acknowledgement is for all frames up to its number: none of those stays in
/// flight, each gives its buffer back, and every newer one stays.
pub proof fn lemma_ack_is_cumulative(s: RouterState, serial: u64)
    requires
        s.wf(),
        s.takes_number(RouterEvent::AppAck { serial }) ==> s.serial < u64::MAX,
    ensures
        ({
            let (t, actions) = s.step(RouterEvent::AppAck { serial });
            let acked = s.in_flight.filter(|e: (u64, u32)| e.0 <= serial);
            &&& forall|i: int|
                0 <= i < t.in_flight.len() ==> (#[trigger] t.in_flight[i]).0 > serial
                    || t.in_flight[i].0 == s.serial + 1
            &&& forall|i: int|
                0 <= i < s.in_flight.len() && (#[trigger] s.in_flight[i]).0 > serial
                    ==> t.in_flight.contains(s.in_flight[i])
            &&& forall|i: int| 0 <= i < acked.len() ==> (#[trigger] actions[i]) is ReleaseBuffer
            &&& forall|i: int|
                acked.len() <= i < actions.len() ==> !((#[trigger] actions[i]) is ReleaseBuffer)
        }),
{
    let (t, actions) = s.step(RouterEvent::AppAck { serial });
    let kept = unacked(s.in_flight, serial);
    lemma_unacked(s.in_flight, serial);
    lemma_split_at(s.in_flight, serial);
    assert forall|i: int| 0 <= i < s.in_flight.len() && (#[trigger] s.in_flight[i]).0
        > serial implies t.in_flight.contains(s.in_flight[i]) by {
        assert(kept.contains(s.in_flight[i]));
        let k = choose|k: int| 0 <= k < kept.len() && kept[k] == s.in_flight[i];
        assert(t.in_flight[k] == kept[k]);
    }
}

/// Each entry is either acknowledged or kept.
proof fn lemma_split_at(entries: Seq<(u64, u32)>, serial: u64)
    ensures
        unacked(entries, serial).len() + entries.filter(|e: (u64, u32)| e.0 <= serial).len()
            == entries.len(),
        forall|i: int|
            0 <= i < entries.len() && (#[trigger] entries[i]).0 > serial ==> unacked(
                entries,
                serial,
            ).contains(entries[i]),
    decreases entries.len(),
{
    reveal(Seq::filter);
    if entries.len() > 0 {
        let front = entries.drop_last();
        lemma_split_at(front, serial);
        let kept = unacked(entries, serial);
        let before = unacked(front, serial);
        assert forall|i: int| 0 <= i < entries.len() && (#[trigger] entries[i]).0
            > serial implies kept.contains(entries[i]) by {
            if i < front.len() {
                assert(front[i] == entries[i]);
                let k = choose|k: int| 0 <= k < before.len() && before[k] == entries[i];
                assert(kept[k] == entries[i]);
            } else {
                assert(kept[kept.len() - 1] == entries[i]);
            }
        }
    }
}

/// Each frame that is sent gets the number of the state it leads to, which is
/// higher than any number before it.
pub proof fn lemma_serials_rise(s: RouterState, event: RouterEvent)
    requires
        s.takes_number(event) ==> s.serial < u64::MAX,
    ensures
        s.serial <= s.step(event).0.serial <= s.serial + 1,
        forall|i: int|
            0 <= i < s.step(event).1.len() ==> ((#[trigger] s.step(event).1[i]) matches RouterAction::EnqueueFrame {
                serial,
                ..
            } ==> serial == s.serial + 1 && serial == s.step(event).0.serial),
{
}

/// Without an App every commit is answered with its callback and nothing else.
pub proof fn lemma_headless_drain(s: RouterState, buffer_id: u32, has_fds: bool, serial: u64)
    requires
        s.wf(),
        !s.app_connected,
    ensures
        s.step(RouterEvent::Commit { buffer_id, has_fds, serial }).1 == seq![
            RouterAction::FireCallback,
        ],
        s.step(RouterEvent::Commit { buffer_id, has_fds, serial }).0.in_flight == s.in_flight,
{
    let out = s.step(RouterEvent::Commit { buffer_id, has_fds, serial });
    assert(out.1 =~= seq![RouterAction::FireCallback]);
}

/// While the window is full the newest frame is the one that is held, and a
/// frame that it replaces gets its callback.
pub proof fn lemma_latest_wins(s: RouterState, buffer_id: u32, has_fds: bool, serial: u64)
    requires
        s.wf(),
        s.app_connected,
        s.in_flight.len() == MAX_IN_FLIGHT,
        s.serial < u64::MAX,
    ensures
        ({
            let (t, actions) = s.step(RouterEvent::Commit { buffer_id, has_fds, serial });
            &&& t.pending == Some(((s.serial + 1) as u64, buffer_id))
            &&& t.in_flight == s.in_flight
            &&& actions == (if s.pending is Some {
                seq![RouterAction::FireCallback]
            } else {
                seq![]
            })
        }),
{
    let out = s.step(RouterEvent::Commit { buffer_id, has_fds, serial });
    if s.pending is Some {
        assert(out.1 =~= seq![RouterAction::FireCallback]);
    } else {
        assert(out.1 =~= seq![]);
    }
}

/// The state and all the actions that a run of events leads to.
pub open spec fn run(s: RouterState, events: Seq<RouterEvent>) -> (RouterState, Seq<RouterAction>)
    decreases events.len(),
{
    if events.len() == 0 {
        (s, seq![])
    } else {
        let (before, actions) = run(s, events.drop_last());
        let (after, more) = before.step(events.last());
        (after, actions + more)
    }
}

/// Whether the action sends `buffer_id`.
pub open spec fn is_send(action: RouterAction, buffer_id: u32) -> bool {
    action matches RouterAction::EnqueueFrame { buffer_id: b, .. } && b == buffer_id
}

/// Whether one of the actions sends `buffer_id`.
pub open spec fn sends(actions: Seq<RouterAction>, buffer_id: u32) -> bool {
    exists|k: int| 0 <= k < actions.len() && is_send(#[trigger] actions[k], buffer_id)
}

/// Within one session a buffer goes out with its descriptors the first time it
/// is sent, and without them every time after that.
pub proof fn lemma_fds_on_first_send(s: RouterState, events: Seq<RouterEvent>)
    requires
        s.registered == Set::<u32>::empty(),
        forall|i: int|
            0 <= i < events.len() ==> !((#[trigger] events[i]) is AppConnected)
                && !(events[i] is AppLost),
    ensures
        ({
            let actions = run(s, events).1;
            forall|i: int|
                0 <= i < actions.len() ==> ((#[trigger] actions[i]) matches RouterAction::EnqueueFrame {
                    buffer_id,
                    has_fds,
                    ..
                } ==> (has_fds <==> !sends(actions.take(i), buffer_id)))
        }),
        forall|b: u32|
            run(s, events).0.registered.contains(b) <==> #[trigger] sends(run(s, events).1, b),
    decreases events.len(),
{
    if events.len() > 0 {
        let front = events.drop_last();
        lemma_fds_on_first_send(s, front);
        let (before, prior) = run(s, front);
        let (after, more) = before.step(events.last());
        let actions = prior + more;
        assert(!(events[events.len() - 1] is AppConnected));
        assert forall|i: int| 0 <= i < actions.len() implies ((#[trigger] actions[i]) matches RouterAction::EnqueueFrame {
            buffer_id,
            has_fds,
            ..
        } ==> (has_fds <==> !sends(actions.take(i), buffer_id))) by {
            if let RouterAction::EnqueueFrame { buffer_id, has_fds, .. } = actions[i] {
                if i < prior.len() {
                    assert(prior[i] == actions[i]);
                    assert(actions.take(i) =~= prior.take(i));
                } else {
                    // The new actions send one frame at most, so what was sent
                    // before this one was sent by the prior actions.
                    let now = actions.take(i);
                    assert(more[i - prior.len()] == actions[i]);
                    if sends(prior, buffer_id) {
                        let k = choose|k: int|
                            0 <= k < prior.len() && is_send(#[trigger] prior[k], buffer_id);
                        assert(is_send(now[k], buffer_id));
                    }
                    if sends(now, buffer_id) {
                        let k = choose|k: int|
                            0 <= k < now.len() && is_send(#[trigger] now[k], buffer_id);
                        if k >= prior.len() {
                            assert(is_send(more[k - prior.len()], buffer_id));
                        }
                        assert(is_send(prior[k], buffer_id));
                    }
                }
            }
        }
        assert forall|b: u32| after.registered.contains(b) <==> #[trigger] sends(actions, b) by {
            if sends(prior, b) {
                let k = choose|k: int| 0 <= k < prior.len() && is_send(#[trigger] prior[k], b);
                assert(is_send(actions[k], b));
            }
            if sends(actions, b) {
                let k = choose|k: int| 0 <= k < actions.len() && is_send(#[trigger] actions[k], b);
                if k < prior.len() {
                    assert(is_send(prior[k], b));
                } else {
                    assert(is_send(more[k - prior.len()], b));
                }
            }
            if after.registered.contains(b) && !before.registered.contains(b) {
                if let RouterEvent::AppAck { serial } = events.last() {
                    let kept = unacked(before.in_flight, serial);
                    let at = before.in_flight.len() - kept.len();
                    assert(is_send(more[at], b));
                    assert(is_send(actions[prior.len() + at], b));
                } else {
                    let at = more.len() - 1;
                    assert(is_send(more[at], b));
                    assert(is_send(actions[prior.len() + at], b));
                }
            }
        }
    }
}

/// A held frame is never lost to an acknowledgement: where one leaves room in
/// the window, the held frame goes out at once, under the next number, as the
/// newest in flight, and with its descriptors if it is new to the session.
pub proof fn lemma_held_frame_is_sent(s: RouterState, n: u64, buffer_id: u32, serial: u64)
    requires
        s.wf(),
        s.pending == Some((n, buffer_id)),
        s.in_flight.filter(|e: (u64, u32)| e.0 > serial).len() < 2,
        s.serial < u64::MAX,
    ensures
        ({
            let (t, actions) = s.step(RouterEvent::AppAck { serial });
            let kept = s.in_flight.filter(|e: (u64, u32)| e.0 > serial);
            let freed = s.in_flight.len() - kept.len();
            &&& t.pending is None
            &&& t.in_flight == kept.push(((s.serial + 1) as u64, buffer_id))
            &&& t.serial == s.serial + 1
            &&& t.registered == s.registered.insert(buffer_id)
            &&& t.app_connected == s.app_connected
            &&& t.compositor_connected == s.compositor_connected
            &&& freed > 0
            &&& actions.len() == freed + 2
            &&& forall|i: int|
                0 <= i < freed ==> #[trigger] actions[i] == (RouterAction::ReleaseBuffer {
                    buffer_id: 0,
                })
            &&& actions[freed] == (RouterAction::EnqueueFrame {
                buffer_id,
                serial: (s.serial + 1) as u64,
                has_fds: !s.registered.contains(buffer_id),
            })
            &&& actions[freed + 1] == RouterAction::FireCallback
        }),
{
    lemma_split_at(s.in_flight, serial);
}

/// Any other acknowledgement sends nothing and leaves what is held. It gives one
/// buffer back for each frame that it is for, and fires one callback if it is
/// for any.
pub proof fn lemma_ack_without_send(s: RouterState, serial: u64)
    requires
        s.wf(),
        s.pending is None || s.in_flight.filter(|e: (u64, u32)| e.0 > serial).len() == 2,
    ensures
        ({
            let (t, actions) = s.step(RouterEvent::AppAck { serial });
            let kept = s.in_flight.filter(|e: (u64, u32)| e.0 > serial);
            let freed = s.in_flight.len() - kept.len();
            &&& t == (RouterState { in_flight: kept, ..s })
            &&& actions.len() == freed + (if freed > 0 {
                1int
            } else {
                0
            })
            &&& forall|i: int|
                0 <= i < freed ==> #[trigger] actions[i] == (RouterAction::ReleaseBuffer {
                    buffer_id: 0,
                })
            &&& freed > 0 ==> actions[freed] == RouterAction::FireCallback
        }),
{
    lemma_split_at(s.in_flight, serial);
}

/// A commit that finds room goes out at once, as the newest in flight. Every
/// frame that was in flight stays.
pub proof fn lemma_commit_is_sent(
    s: RouterState,
    buffer_id: u32,
    has_fds: bool,
    serial: u64,
)
    requires
        s.wf(),
        s.app_connected,
        s.in_flight.len() < 2,
        s.serial < u64::MAX,
    ensures
        ({
            let (t, actions) = s.step(RouterEvent::Commit { buffer_id, has_fds, serial });
            &&& t.in_flight == s.in_flight.push(((s.serial + 1) as u64, buffer_id))
            &&& t.pending is None
            &&& t.serial == s.serial + 1
            &&& t.registered == s.registered.insert(buffer_id)
            &&& t.app_connected && t.compositor_connected
            &&& actions == seq![
                RouterAction::EnqueueFrame {
                    buffer_id,
                    serial: (s.serial + 1) as u64,
                    has_fds: !s.registered.contains(buffer_id),
                },
            ]
        }),
{
    let out = s.step(RouterEvent::Commit { buffer_id, has_fds, serial });
    assert(out.1.len() == 1);
}

/// A commit that is not sent changes neither what is in flight nor which buffers
/// the App knows, and is counted all the same.
pub proof fn lemma_commit_is_counted(
    s: RouterState,
    buffer_id: u32,
    has_fds: bool,
    serial: u64,
)
    requires
        s.wf(),
        !s.app_connected || s.in_flight.len() == 2,
        s.serial < u64::MAX,
    ensures
        ({
            let t = s.step(RouterEvent::Commit { buffer_id, has_fds, serial }).0;
            &&& t.serial == s.serial + 1
            &&& t.in_flight == s.in_flight
            &&& t.registered == s.registered
            &&& t.app_connected == s.app_connected
            &&& t.compositor_connected
            &&& s.app_connected ==> t.pending == Some(((s.serial + 1) as u64, buffer_id))
            &&& !s.app_connected ==> t.pending is None
        }),
{
}

/// A session begins with nothing in flight, nothing held and no buffer known. It
/// ends with all buffers given back, oldest first, and one callback for each
/// frame that was in flight or held. Numbers go on.
pub proof fn lemma_session_begins_and_ends(s: RouterState)
    requires
        s.wf(),
    ensures
        ({
            let (t, actions) = s.step(RouterEvent::AppConnected);
            &&& actions.len() == 0
            &&& t.app_connected
            &&& t.in_flight.len() == 0 && t.pending is None
            &&& forall|b: u32| !#[trigger] t.registered.contains(b)
            &&& t.serial == s.serial && t.compositor_connected == s.compositor_connected
        }),
        ({
            let (t, actions) = s.step(RouterEvent::AppLost);
            let n = s.in_flight.len() as int;
            &&& !t.app_connected
            &&& t.in_flight.len() == 0 && t.pending is None
            &&& forall|b: u32| !#[trigger] t.registered.contains(b)
            &&& t.serial == s.serial && t.compositor_connected == s.compositor_connected
            &&& actions.len() == 2 * n + (if s.pending is Some {
                1int
            } else {
                0
            })
            &&& forall|i: int|
                0 <= i < n ==> #[trigger] actions[i] == (RouterAction::ReleaseBuffer {
                    buffer_id: s.in_flight[i].1,
                })
            &&& forall|i: int|
                n <= i < actions.len() ==> #[trigger] actions[i] == RouterAction::FireCallback
        }),
        ({
            let (t, actions) = s.step(RouterEvent::CompositorLost);
            &&& actions.len() == 0
            &&& !t.compositor_connected && t.pending is None
            &&& t.in_flight == s.in_flight && t.registered == s.registered
            &&& t.serial == s.serial && t.app_connected == s.app_connected
        }),
{
}

/// Whether `b` is the buffer of the newest commit among the events.
pub open spec fn newest_commit(events: Seq<RouterEvent>, b: u32) -> bool {
    exists|k: int|
        {
            &&& 0 <= k < events.len()
            &&& (#[trigger] events[k] matches RouterEvent::Commit { buffer_id, .. } && buffer_id == b)
            &&& forall|j: int| k < j < events.len() ==> !((#[trigger] events[j]) is Commit)
        }
}

/// Whether `b` is the buffer of the last frame that the actions send.
pub open spec fn last_sent(actions: Seq<RouterAction>, b: u32) -> bool {
    exists|k: int|
        {
            &&& 0 <= k < actions.len()
            &&& is_send(#[trigger] actions[k], b)
            &&& forall|j: int|
                k < j < actions.len() ==> !((#[trigger] actions[j]) is EnqueueFrame)
        }
}

/// No frame is lost while a session lasts: whatever is committed and
/// acknowledged, the newest committed frame is held or is the last one that was
/// sent. An older one that is neither was sent before it or replaced by it.
pub proof fn lemma_newest_is_sent_or_held(s: RouterState, events: Seq<RouterEvent>, b: u32)
    requires
        s.wf(),
        s.app_connected,
        s.serial + events.len() < u64::MAX,
        forall|i: int|
            0 <= i < events.len() ==> (#[trigger] events[i]) is Commit || events[i] is AppAck,
        newest_commit(events, b),
    ensures
        ({
            let (t, actions) = run(s, events);
            match t.pending {
                Some((_, held)) => held == b,
                None => last_sent(actions, b),
            }
        }),
    decreases events.len(),
{
    let front = events.drop_last();
    let last = events.last();
    let (before, prior) = run(s, front);
    let (after, more) = before.step(last);
    let actions = prior + more;
    assert(events[events.len() - 1] == last);
    lemma_run_keeps(s, front);
    let k = choose|k: int|
        {
            &&& 0 <= k < events.len()
            &&& (#[trigger] events[k] matches RouterEvent::Commit { buffer_id, .. } && buffer_id == b)
            &&& forall|j: int| k < j < events.len() ==> !((#[trigger] events[j]) is Commit)
        };
    if let RouterEvent::Commit { buffer_id, has_fds, serial } = last {
        assert(k == events.len() - 1);
        assert(buffer_id == b);
        if before.in_flight.len() < 2 {
            lemma_commit_is_sent(before, b, has_fds, serial);
            assert(is_send(actions[prior.len() as int], b));
        }
    } else {
        assert(front[k] == events[k]);
        assert forall|j: int| k < j < front.len() implies !((#[trigger] front[j]) is Commit) by {
            assert(front[j] == events[j]);
        }
        assert(newest_commit(front, b));
        assert forall|i: int| 0 <= i < front.len() implies (#[trigger] front[i]) is Commit
            || front[i] is AppAck by {
            assert(front[i] == events[i]);
        }
        lemma_newest_is_sent_or_held(s, front, b);
        if let RouterEvent::AppAck { serial } = last {
            let kept = before.in_flight.filter(|e: (u64, u32)| e.0 > serial);
            lemma_split_at(before.in_flight, serial);
            match before.pending {
                Some((n, held)) => {
                    if kept.len() < 2 {
                        lemma_held_frame_is_sent(before, n, held, serial);
                        let at = before.in_flight.len() - kept.len();
                        assert(is_send(more[at], b));
                        assert(is_send(actions[prior.len() + at], b));
                        assert forall|j: int| prior.len() + at < j < actions.len() implies !((
                        #[trigger] actions[j]) is EnqueueFrame) by {
                            assert(actions[j] == more[j - prior.len()]);
                        }
                    }
                },
                None => {
                    lemma_ack_without_send(before, serial);
                    let p = choose|p: int|
                        {
                            &&& 0 <= p < prior.len()
                            &&& is_send(#[trigger] prior[p], b)
                            &&& forall|j: int|
                                p < j < prior.len() ==> !((#[trigger] prior[j]) is EnqueueFrame)
                        };
                    assert(is_send(actions[p], b));
                    assert forall|j: int| p < j < actions.len() implies !((
                    #[trigger] actions[j]) is EnqueueFrame) by {
                        if j < prior.len() {
                            assert(actions[j] == prior[j]);
                        } else {
                            assert(actions[j] == more[j - prior.len()]);
                        }
                    }
                },
            }
        }
    }
}

/// Commits and acknowledgements keep the router well formed and connected.
proof fn lemma_run_keeps(s: RouterState, events: Seq<RouterEvent>)
    requires
        s.wf(),
        s.app_connected,
        s.serial + events.len() < u64::MAX,
        forall|i: int|
            0 <= i < events.len() ==> (#[trigger] events[i]) is Commit || events[i] is AppAck,
    ensures
        ({
            let t = run(s, events).0;
            &&& t.wf()
            &&& t.app_connected
            &&& t.serial <= s.serial + events.len()
        }),
    decreases events.len(),
{
    if events.len() > 0 {
        let front = events.drop_last();
        assert forall|i: int| 0 <= i < front.len() implies (#[trigger] front[i]) is Commit
            || front[i] is AppAck by {
            assert(front[i] == events[i]);
        }
        lemma_run_keeps(s, front);
        assert(events[events.len() - 1] == events.last());
        lemma_wf_step(run(s, front).0, events.last());
        lemma_serials_rise(run(s, front).0, events.last());
    }
}

} // verus!
