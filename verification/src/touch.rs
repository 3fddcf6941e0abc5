//! Touch points of the App, as touch events of the seat.

use std::collections::HashSet;
use vstd::prelude::*;
use vstd::std_specs::hash::*;
use crate::proto::{
    TOUCH_PHASE_CANCEL, TOUCH_PHASE_DOWN, TOUCH_PHASE_FRAME, TOUCH_PHASE_MOVE, TOUCH_PHASE_UP,
};

verus! {

broadcast use vstd::std_specs::hash::group_hash_axioms;

/// What to inject. A slot is the touch id, taken as unsigned.
#[derive(Clone, Copy, Debug, PartialEq, Eq, Structural)]
pub enum TouchAction {
    Down { slot: u32, serial: u32 },
    Motion { slot: u32 },
    Up { slot: u32, serial: u32 },
    Cancel,
    Frame,
    Ignore,
}

/// What an injector remembers.
#[verifier::ext_equal]
pub struct InjectorState {
    pub next_serial: u32,
    pub logical_width: u32,
    pub logical_height: u32,
    /// The touches that are down.
    pub active: Set<i32>,
}

pub struct TouchInjector {
    next_serial: u32,
    logical_width: u32,
    logical_height: u32,
    active: HashSet<i32>,
}

impl View for TouchInjector {
    type V = InjectorState;

    closed spec fn view(&self) -> InjectorState {
        InjectorState {
            next_serial: self.next_serial,
            logical_width: self.logical_width,
            logical_height: self.logical_height,
            active: self.active@,
        }
    }
}

impl InjectorState {
    pub open spec fn numbered(self) -> InjectorState {
        InjectorState { next_serial: (self.next_serial + 1) as u32, ..self }
    }

    /// Whether a touch event uses a serial up: the begin of a touch, and the end
    /// of one that is down.
    pub open spec fn takes_serial(self, touch_id: i32, phase: u32) -> bool {
        phase == TOUCH_PHASE_DOWN || (phase == TOUCH_PHASE_UP && self.active.contains(touch_id))
    }

    /// The state and the action that a touch event leads to. Only touches that
    /// are down move or end.
    pub open spec fn step(self, touch_id: i32, phase: u32) -> (InjectorState, TouchAction) {
        let slot = touch_id as u32;
        if phase == TOUCH_PHASE_DOWN {
            (
                InjectorState { active: self.active.insert(touch_id), ..self.numbered() },
                TouchAction::Down { slot, serial: self.next_serial },
            )
        } else if phase == TOUCH_PHASE_MOVE {
            if self.active.contains(touch_id) {
                (self, TouchAction::Motion { slot })
            } else {
                (self, TouchAction::Ignore)
            }
        } else if phase == TOUCH_PHASE_UP {
            if self.active.contains(touch_id) {
                (
                    InjectorState { active: self.active.remove(touch_id), ..self.numbered() },
                    TouchAction::Up { slot, serial: self.next_serial },
                )
            } else {
                (self, TouchAction::Ignore)
            }
        } else if phase == TOUCH_PHASE_CANCEL {
            (InjectorState { active: Set::empty(), ..self }, TouchAction::Cancel)
        } else if phase == TOUCH_PHASE_FRAME {
            (self, TouchAction::Frame)
        } else {
            (self, TouchAction::Ignore)
        }
    }
}

impl TouchInjector {
    pub fn new(logical_width: u32, logical_height: u32) -> (r: Self)
        ensures
            r@ == (InjectorState {
                next_serial: 1,
                logical_width,
                logical_height,
                active: Set::empty(),
            }),
    {
        TouchInjector { next_serial: 1, logical_width, logical_height, active: HashSet::new() }
    }

    /// The size that normalised coordinates are scaled to.
    pub fn set_logical_size(&mut self, w: u32, h: u32)
        ensures
            final(self)@ == (InjectorState { logical_width: w, logical_height: h, ..old(self)@ }),
    {
        self.logical_width = w;
        self.logical_height = h;
    }

    pub fn logical_size(&self) -> (r: (u32, u32))
        ensures
            r == (self@.logical_width, self@.logical_height),
    {
        (self.logical_width, self.logical_height)
    }

    pub fn slot_for(touch_id: i32) -> (r: u32)
        ensures
            r == touch_id as u32,
    {
        #[verifier::truncate]
        (touch_id as u32)
    }

    fn new_serial(&mut self) -> (r: u32)
        requires
            old(self)@.next_serial < u32::MAX,
        ensures
            r == old(self)@.next_serial,
            final(self)@ == old(self)@.numbered(),
    {
        let s: u32 = self.next_serial;
        self.next_serial = s + 1;
        s
    }

    /// Takes one touch event in.
    pub fn handle(&mut self, touch_id: i32, phase: u32) -> (r: TouchAction)
        requires
            old(self)@.takes_serial(touch_id, phase) ==> old(self)@.next_serial < u32::MAX,
        ensures
            (final(self)@, r) == old(self)@.step(touch_id, phase),
    {
        if phase == TOUCH_PHASE_DOWN {
            self.active.insert(touch_id);
            let serial: u32 = self.new_serial();
            assert(self@ =~= old(self)@.step(touch_id, phase).0);
            TouchAction::Down { slot: Self::slot_for(touch_id), serial }
        } else if phase == TOUCH_PHASE_MOVE {
            if self.active.contains(&touch_id) {
                TouchAction::Motion { slot: Self::slot_for(touch_id) }
            } else {
                TouchAction::Ignore
            }
        } else if phase == TOUCH_PHASE_UP {
            if self.active.remove(&touch_id) {
                let serial: u32 = self.new_serial();
                assert(self@ =~= old(self)@.step(touch_id, phase).0);
                TouchAction::Up { slot: Self::slot_for(touch_id), serial }
            } else {
                assert(self@ =~= old(self)@);
                TouchAction::Ignore
            }
        } else if phase == TOUCH_PHASE_CANCEL {
            self.active.clear();
            TouchAction::Cancel
        } else if phase == TOUCH_PHASE_FRAME {
            TouchAction::Frame
        } else {
            TouchAction::Ignore
        }
    }
}

/// A touch that went down and up again is as if it had never been, and its end
/// is reported once.
pub proof fn lemma_down_then_up(s: InjectorState, touch_id: i32)
    requires
        !s.active.contains(touch_id),
        s.next_serial < u32::MAX - 1,
    ensures
        ({
            let (down, first) = s.step(touch_id, TOUCH_PHASE_DOWN);
            let (up, second) = down.step(touch_id, TOUCH_PHASE_UP);
            let (again, third) = up.step(touch_id, TOUCH_PHASE_UP);
            &&& up.active == s.active
            &&& first == (TouchAction::Down { slot: touch_id as u32, serial: s.next_serial })
            &&& second == (TouchAction::Up {
                slot: touch_id as u32,
                serial: (s.next_serial + 1) as u32,
            })
            &&& third is Ignore
            &&& again == up
        }),
{
    let up = s.step(touch_id, TOUCH_PHASE_DOWN).0.step(touch_id, TOUCH_PHASE_UP).0;
    assert(up.active =~= s.active);
}

/// After a cancel no touch is down: nothing moves or ends before it goes down
/// anew.
pub proof fn lemma_cancel_ends_all(s: InjectorState, any: i32, touch_id: i32)
    ensures
        ({
            let t = s.step(any, TOUCH_PHASE_CANCEL).0;
            &&& t.step(touch_id, TOUCH_PHASE_MOVE) == (t, TouchAction::Ignore)
            &&& t.step(touch_id, TOUCH_PHASE_UP) == (t, TouchAction::Ignore)
        }),
{
}

/// The state after a run of touch events, each a touch id and a phase.
pub open spec fn after(s: InjectorState, events: Seq<(i32, u32)>) -> InjectorState
    decreases events.len(),
{
    if events.len() == 0 {
        s
    } else {
        let (touch_id, phase) = events.last();
        after(s, events.drop_last()).step(touch_id, phase).0
    }
}

/// The event ends touch `id`: its own end, or a cancel of whatever is down.
pub open spec fn ends(event: (i32, u32), id: i32) -> bool {
    event == (id, 2u32) || event.1 == 3
}

/// Nothing from event `from` on ends touch `id`.
pub open spec fn lasts(events: Seq<(i32, u32)>, from: int, id: i32) -> bool {
    forall|j: int| from <= j < events.len() ==> !ends(#[trigger] events[j], id)
}

/// A touch is down from its begin to its own end or to a cancel, and nothing
/// else makes it so or ends it: not what happens to another touch, and no
/// movement.
pub proof fn lemma_down_until_its_end(s: InjectorState, events: Seq<(i32, u32)>, id: i32)
    ensures
        after(s, events).active.contains(id) <==> (s.active.contains(id) && lasts(events, 0, id))
            || exists|k: int|
            0 <= k < events.len() && #[trigger] events[k] == (id, 0u32) && lasts(events, k + 1, id),
    decreases events.len(),
{
    if events.len() > 0 {
        let front = events.drop_last();
        let last = events.last();
        let n = events.len() - 1;
        lemma_down_until_its_end(s, front, id);
        assert(events[n] == last);
        assert forall|from: int| 0 <= from <= n implies (#[trigger] lasts(events, from, id) <==> lasts(
            front,
            from,
            id,
        ) && !ends(last, id)) by {
            if lasts(events, from, id) {
                assert forall|j: int| from <= j < front.len() implies !ends(
                    #[trigger] front[j],
                    id,
                ) by {
                    assert(front[j] == events[j]);
                }
                assert(!ends(events[n], id));
            }
            if lasts(front, from, id) && !ends(last, id) {
                assert forall|j: int| from <= j < events.len() implies !ends(
                    #[trigger] events[j],
                    id,
                ) by {
                    if j < n {
                        assert(front[j] == events[j]);
                    }
                }
            }
        }
        assert(lasts(events, n + 1, id));
        if last == (id, 0u32) {
            assert(events[n] == (id, 0u32) && lasts(events, n + 1, id));
        } else {
            if exists|k: int|
                0 <= k < events.len() && #[trigger] events[k] == (id, 0u32) && lasts(
                    events,
                    k + 1,
                    id,
                ) {
                let k = choose|k: int|
                    0 <= k < events.len() && #[trigger] events[k] == (id, 0u32) && lasts(
                        events,
                        k + 1,
                        id,
                    );
                assert(k < n);
                assert(front[k] == (id, 0u32) && lasts(front, k + 1, id));
            }
            if exists|k: int|
                0 <= k < front.len() && #[trigger] front[k] == (id, 0u32) && lasts(
                    front,
                    k + 1,
                    id,
                ) {
                let k = choose|k: int|
                    0 <= k < front.len() && #[trigger] front[k] == (id, 0u32) && lasts(
                        front,
                        k + 1,
                        id,
                    );
                assert(events[k] == (id, 0u32));
                if !ends(last, id) {
                    assert(lasts(events, k + 1, id));
                }
            }
        }
    }
}

/// The end of a touch, or a movement, is injected exactly if the touch is down,
/// and in the slot of that touch; its begin always is. A movement leaves all
/// touches as they are.
pub proof fn lemma_each_touch_has_its_slot(s: InjectorState, id: i32, other: i32)
    requires
        s.next_serial < u32::MAX,
    ensures
        s.step(id, 0).1 == (TouchAction::Down { slot: id as u32, serial: s.next_serial }),
        s.step(id, 1).1 == (if s.active.contains(id) {
            TouchAction::Motion { slot: id as u32 }
        } else {
            TouchAction::Ignore
        }),
        s.step(id, 2).1 == (if s.active.contains(id) {
            TouchAction::Up { slot: id as u32, serial: s.next_serial }
        } else {
            TouchAction::Ignore
        }),
        s.step(id, 3).1 == TouchAction::Cancel,
        s.step(id, 4).1 == TouchAction::Frame,
        s.step(id, 1).0 == s,
        s.step(id, 4).0 == s,
        id != other ==> id as u32 != other as u32,
{
    assert(id != other ==> id as u32 != other as u32) by (bit_vector);
}

/// Serials are used up one by one, by what begins or ends a touch and by nothing
/// else. The size never changes by a touch, and unknown phases do nothing.
pub proof fn lemma_serials_are_used_once(s: InjectorState, id: i32, phase: u32)
    requires
        s.next_serial < u32::MAX,
    ensures
        ({
            let (t, action) = s.step(id, phase);
            &&& t.logical_width == s.logical_width && t.logical_height == s.logical_height
            &&& t.next_serial == s.next_serial + (if action is Down || action is Up {
                1int
            } else {
                0
            })
            &&& phase > 4 ==> t == s && action is Ignore
        }),
{
}

} // verus!
