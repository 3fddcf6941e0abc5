//! The compositor's decisions: configuration, input, frames and vsync.

use vstd::prelude::*;
use crate::proto::{
    ConfigMessage, KeyMessage, Message, TouchMessage, TOUCH_PHASE_DOWN, TOUCH_PHASE_MOVE,
    TOUCH_PHASE_UP,
};
use crate::touch::{TouchAction, TouchInjector};
use crate::transport::RecvError;

verus! {

/// Left mouse button, as evdev numbers it.
pub const BTN_LEFT: u32 = 0x110;

pub const DEFAULT_WIDTH: u32 = 3392;

pub const DEFAULT_HEIGHT: u32 = 2400;

pub const DEFAULT_REFRESH_MILLIHZ: u32 = 144000;

/// Density of the panel.
pub const PANEL_DPI: u32 = 289;

#[derive(Clone, Copy, Debug, PartialEq, Eq, Structural)]
pub enum KeyState {
    Pressed,
    Released,
}

/// What to feed to the keyboard.
#[derive(Clone, Copy, Debug, PartialEq, Eq, Structural)]
pub struct KeyPlan {
    /// Give the toplevel the focus first, under this serial.
    pub focus_serial: Option<u32>,
    pub serial: u32,
    /// X keycode: eight more than the evdev code.
    pub keycode: u32,
    pub state: KeyState,
    pub time_ms: u32,
}

/// What to feed to the pointer. Each step ends with a pointer frame.
#[derive(Clone, Copy, Debug, PartialEq, Eq, Structural)]
pub enum PointerPlan {
    /// Move, then press the left button.
    MoveAndPress,
    Move,
    /// Release the left button.
    Release,
    Nothing,
}

/// What a configuration asks for beside the new mode of the output.
#[derive(Clone, Copy, Debug, PartialEq, Eq, Structural)]
pub struct ConfigPlan {
    /// Configure the toplevel with the new size.
    pub configure: bool,
    /// Tell the App the settings in effect.
    pub reply: Option<ConfigMessage>,
}

/// One beat of the vsync timer.
#[derive(Clone, Copy, Debug, PartialEq, Eq, Structural)]
pub struct Tick {
    pub seq: u64,
    /// Milliseconds since the start, modulo 2^32.
    pub now_ms: u32,
    pub period_ns: u64,
}

/// What to do with a message of the App.
pub enum LandAction<F> {
    /// The App has consumed a frame.
    Released,
    Touch(TouchMessage),
    Key(KeyMessage),
    Apply(ConfigMessage),
    /// A message that only the server sends.
    Unexpected(Message<F>),
    /// Nothing more to read for now.
    Idle,
    /// The session is over.
    TearDown(RecvError),
}

/// Densities that keep scale factors simple.
pub open spec fn dpi_buckets() -> Seq<u32> {
    seq![96u32, 120, 144, 160, 192, 240, 288, 384]
}

pub open spec fn distance(a: u32, b: u32) -> int {
    if a <= b {
        b - a
    } else {
        a - b
    }
}

/// `b` is the bucket for `raw`: none is nearer, and of two at the same distance
/// the larger is taken.
pub open spec fn is_bucket_for(raw: u32, b: u32) -> bool {
    &&& dpi_buckets().contains(b)
    &&& forall|k: int|
        #![trigger dpi_buckets()[k]]
        0 <= k < dpi_buckets().len() ==> distance(raw, b) < distance(raw, dpi_buckets()[k]) || (
        distance(raw, b) == distance(raw, dpi_buckets()[k]) && b >= dpi_buckets()[k])
}

/// Nanoseconds per frame at a rate in millihertz. A rate of zero counts as one.
pub open spec fn period_ns(refresh_millihz: u32) -> u64 {
    (1_000_000_000_000int / if refresh_millihz == 0 {
        1
    } else {
        refresh_millihz as int
    }) as u64
}

/// The pointer's part in a touch event.
pub open spec fn pointer_plan(phase: u32) -> PointerPlan {
    if phase == TOUCH_PHASE_DOWN {
        PointerPlan::MoveAndPress
    } else if phase == TOUCH_PHASE_MOVE {
        PointerPlan::Move
    } else if phase == TOUCH_PHASE_UP {
        PointerPlan::Release
    } else {
        PointerPlan::Nothing
    }
}

/// What the compositor remembers.
#[verifier::ext_equal]
pub struct CompositorState {
    pub screen_width: u32,
    pub screen_height: u32,
    pub refresh_millihz: u32,
    pub dpi: u32,
    pub frame_mode: u32,
    pub injector: crate::touch::InjectorState,
    pub next_serial: u32,
    pub vsync_seq: u64,
}

impl CompositorState {
    /// Every touch event takes a serial of each kind or of the compositor's own
    /// alone, so the injector never runs ahead.
    pub open spec fn wf(self) -> bool {
        self.injector.next_serial <= self.next_serial
    }
}

pub struct WlState {
    screen_width: u32,
    screen_height: u32,
    refresh_millihz: u32,
    dpi: u32,
    frame_mode: u32,
    touch_injector: TouchInjector,
    next_serial: u32,
    vsync_seq: u64,
}

impl View for WlState {
    type V = CompositorState;

    closed spec fn view(&self) -> CompositorState {
        CompositorState {
            screen_width: self.screen_width,
            screen_height: self.screen_height,
            refresh_millihz: self.refresh_millihz,
            dpi: self.dpi,
            frame_mode: self.frame_mode,
            injector: self.touch_injector@,
            next_serial: self.next_serial,
            vsync_seq: self.vsync_seq,
        }
    }
}

impl WlState {
    pub fn new() -> (r: Self)
        ensures
            r@.screen_width == DEFAULT_WIDTH,
            r@.screen_height == DEFAULT_HEIGHT,
            r@.refresh_millihz == DEFAULT_REFRESH_MILLIHZ,
            is_bucket_for(PANEL_DPI, r@.dpi),
            r@.frame_mode == 0,
            r@.injector == (crate::touch::InjectorState {
                next_serial: 1,
                logical_width: DEFAULT_WIDTH,
                logical_height: DEFAULT_HEIGHT,
                active: Set::empty(),
            }),
            r@.next_serial == 1,
            r@.vsync_seq == 1,
            r@.wf(),
    {
        WlState {
            screen_width: DEFAULT_WIDTH,
            screen_height: DEFAULT_HEIGHT,
            refresh_millihz: DEFAULT_REFRESH_MILLIHZ,
            dpi: Self::bucket_dpi(PANEL_DPI),
            frame_mode: 0,
            touch_injector: TouchInjector::new(DEFAULT_WIDTH, DEFAULT_HEIGHT),
            next_serial: 1,
            vsync_seq: 1,
        }
    }

    pub fn screen_size(&self) -> (r: (u32, u32))
        ensures
            r == (self@.screen_width, self@.screen_height),
    {
        (self.screen_width, self.screen_height)
    }

    pub fn refresh_millihz(&self) -> (r: u32)
        ensures
            r == self@.refresh_millihz,
    {
        self.refresh_millihz
    }

    pub fn dpi(&self) -> (r: u32)
        ensures
            r == self@.dpi,
    {
        self.dpi
    }

    pub fn frame_mode(&self) -> (r: u32)
        ensures
            r == self@.frame_mode,
    {
        self.frame_mode
    }

    /// The size that touch coordinates are scaled to.
    pub fn logical_size(&self) -> (r: (u32, u32))
        ensures
            r == (self@.injector.logical_width, self@.injector.logical_height),
    {
        self.touch_injector.logical_size()
    }

    /// The serial that is taken next.
    pub fn next_serial(&self) -> (r: u32)
        ensures
            r == self@.next_serial,
    {
        self.next_serial
    }

    /// The number of the next beat.
    pub fn vsync_seq(&self) -> (r: u64)
        ensures
            r == self@.vsync_seq,
    {
        self.vsync_seq
    }

    /// Takes the next serial.
    pub fn take_serial(&mut self) -> (r: u32)
        requires
            old(self)@.next_serial < u32::MAX,
        ensures
            r == old(self)@.next_serial,
            final(self)@ == (CompositorState {
                next_serial: (old(self)@.next_serial + 1) as u32,
                ..old(self)@
            }),
    {
        let s: u32 = self.next_serial;
        self.next_serial = s + 1;
        s
    }

    /// The nearest of the densities that keep scale factors simple; midway, the
    /// larger.
    pub fn bucket_dpi(raw: u32) -> (r: u32)
        ensures
            is_bucket_for(raw, r),
    {
        let buckets: [u32; 8] = [96, 120, 144, 160, 192, 240, 288, 384];
        proof {
            assert(buckets@ =~= dpi_buckets());
        }
        if raw <= buckets[0] {
            assert(dpi_buckets()[0] == 96);
            return buckets[0];
        }
        let mut best: u32 = buckets[0];
        let mut i: usize = 1;
        assert(dpi_buckets()[0] == best);
        while i < 8
            invariant
                1 <= i <= 8,
                buckets@ == dpi_buckets(),
                best == dpi_buckets()[i - 1],
                raw >= best,
            decreases 8 - i,
        {
            let b: u32 = buckets[i];
            if raw >= b {
                best = b;
            } else {
                let r: u32 = if raw - best < b - raw {
                    best
                } else {
                    b
                };
                assert(dpi_buckets()[i - 1] == best && dpi_buckets()[i as int] == b);
                return r;
            }
            i += 1;
        }
        best
    }

    /// One is down, anything else is up: a malformed message cannot press a key.
    pub fn key_state_from_u32(state: u32) -> (r: KeyState)
        ensures
            r == (if state == 1 {
                KeyState::Pressed
            } else {
                KeyState::Released
            }),
    {
        if state == 1 {
            KeyState::Pressed
        } else {
            KeyState::Released
        }
    }

    /// A key event. Without a keyboard it is dropped. Keycodes wrap around, so
    /// that no code is out of range.
    pub fn handle_key(&mut self, msg: &KeyMessage, has_keyboard: bool, has_toplevel: bool) -> (r:
        Option<KeyPlan>)
        requires
            has_keyboard ==> old(self)@.next_serial < u32::MAX,
            has_keyboard && has_toplevel ==> old(self)@.next_serial < u32::MAX - 1,
        ensures
            !has_keyboard ==> r is None && final(self)@ == old(self)@,
            has_keyboard ==> {
                let s = old(self)@.next_serial;
                let used: u32 = if has_toplevel {
                    1
                } else {
                    0
                };
                &&& r == Some(
                    KeyPlan {
                        focus_serial: if has_toplevel {
                            Some(s)
                        } else {
                            None
                        },
                        serial: (s + used) as u32,
                        keycode: if msg.keycode + 8 <= u32::MAX {
                            (msg.keycode + 8) as u32
                        } else {
                            (msg.keycode + 8 - 0x1_0000_0000) as u32
                        },
                        state: if msg.state == 1 {
                            KeyState::Pressed
                        } else {
                            KeyState::Released
                        },
                        time_ms: msg.time_ms,
                    },
                )
                &&& final(self)@ == (CompositorState {
                    next_serial: (s + used + 1) as u32,
                    ..old(self)@
                })
            },
    {
        if !has_keyboard {
            return None;
        }
        let focus_serial: Option<u32> = if has_toplevel {
            Some(self.take_serial())
        } else {
            None
        };
        let serial: u32 = self.take_serial();
        Some(
            KeyPlan {
                focus_serial,
                serial,
                keycode: msg.keycode.wrapping_add(8),
                state: Self::key_state_from_u32(msg.state),
                time_ms: msg.time_ms,
            },
        )
    }

    /// A touch event: what the touch device gets, the serial for the pointer,
    /// and what the pointer gets. The serial is used up in any case; the
    /// pointer is only driven over a toplevel.
    pub fn handle_touch(&mut self, msg: &TouchMessage, has_touch: bool, has_pointer: bool) -> (r: (
        TouchAction,
        u32,
        PointerPlan,
    ))
        requires
            old(self)@.wf(),
            old(self)@.next_serial < u32::MAX,
        ensures
            final(self)@.wf(),
            ({
                let s = old(self)@;
                let (injector, action) = if has_touch {
                    s.injector.step(msg.touch_id, msg.phase)
                } else {
                    (s.injector, TouchAction::Ignore)
                };
                &&& r.0 == action
                &&& r.1 == s.next_serial
                &&& r.2 == (if has_pointer {
                    pointer_plan(msg.phase)
                } else {
                    PointerPlan::Nothing
                })
                &&& final(self)@ == (CompositorState {
                    injector,
                    next_serial: (s.next_serial + 1) as u32,
                    ..s
                })
            }),
    {
        let action: TouchAction = if has_touch {
            self.touch_injector.handle(msg.touch_id, msg.phase)
        } else {
            TouchAction::Ignore
        };
        let serial: u32 = self.take_serial();
        let plan: PointerPlan = if !has_pointer {
            PointerPlan::Nothing
        } else if msg.phase == TOUCH_PHASE_DOWN {
            PointerPlan::MoveAndPress
        } else if msg.phase == TOUCH_PHASE_MOVE {
            PointerPlan::Move
        } else if msg.phase == TOUCH_PHASE_UP {
            PointerPlan::Release
        } else {
            PointerPlan::Nothing
        };
        (action, serial, plan)
    }

    /// The seat's focus moved to `focused`; `current` is what the pointer is over,
    /// if there is a pointer. The serial to move the pointer with, where it is
    /// over something else.
    pub fn focus_changed(
        &mut self,
        has_pointer: bool,
        focused: Option<u64>,
        current: Option<u64>,
    ) -> (r: Option<u32>)
        requires
            has_pointer && focused is Some && focused != current ==> old(self)@.next_serial
                < u32::MAX,
        ensures
            has_pointer && focused is Some && focused != current ==> r == Some(
                old(self)@.next_serial,
            ) && final(self)@ == (CompositorState {
                next_serial: (old(self)@.next_serial + 1) as u32,
                ..old(self)@
            }),
            !(has_pointer && focused is Some && focused != current) ==> r is None && final(self)@
                == old(self)@,
    {
        if !has_pointer {
            return None;
        }
        match focused {
            None => None,
            Some(f) => {
                let same: bool = match current {
                    Some(c) => c == f,
                    None => false,
                };
                if same {
                    None
                } else {
                    Some(self.take_serial())
                }
            },
        }
    }

    /// Takes the App's settings over. The toplevel is configured when the size
    /// changes; a connected App is told the settings in effect, with the density
    /// that is bucketed.
    pub fn apply_config(
        &mut self,
        w: u32,
        h: u32,
        refresh_millihz: u32,
        dpi: u32,
        frame_mode: u32,
        has_toplevel: bool,
        has_session: bool,
    ) -> (r: ConfigPlan)
        ensures
            final(self)@ == (CompositorState {
                screen_width: w,
                screen_height: h,
                refresh_millihz,
                dpi,
                frame_mode,
                injector: crate::touch::InjectorState {
                    logical_width: w,
                    logical_height: h,
                    ..old(self)@.injector
                },
                ..old(self)@
            }),
            r.configure == (has_toplevel && (old(self)@.screen_width != w
                || old(self)@.screen_height != h)),
            r.reply is Some <==> has_session,
            r.reply matches Some(m) ==> m == (ConfigMessage {
                magic: crate::proto::MAGIC_CONFU,
                protocol_version: crate::proto::PROTOCOL_VERSION,
                width: w,
                height: h,
                refresh_millihz,
                dpi: m.dpi,
                app_caps: 0,
                frame_mode,
            }) && is_bucket_for(dpi, m.dpi),
    {
        let size_changed: bool = self.screen_width != w || self.screen_height != h;
        self.screen_width = w;
        self.screen_height = h;
        self.refresh_millihz = refresh_millihz;
        self.dpi = dpi;
        self.frame_mode = frame_mode;
        self.touch_injector.set_logical_size(w, h);
        let reply: Option<ConfigMessage> = if has_session {
            Some(self.config_update())
        } else {
            None
        };
        ConfigPlan { configure: size_changed && has_toplevel, reply }
    }

    /// The settings in effect, as the App is told them: when it connects, and
    /// after each change.
    pub fn config_update(&self) -> (r: ConfigMessage)
        ensures
            r == (ConfigMessage {
                magic: crate::proto::MAGIC_CONFU,
                protocol_version: crate::proto::PROTOCOL_VERSION,
                width: self@.screen_width,
                height: self@.screen_height,
                refresh_millihz: self@.refresh_millihz,
                dpi: r.dpi,
                app_caps: 0,
                frame_mode: self@.frame_mode,
            }),
            is_bucket_for(self@.dpi, r.dpi),
    {
        ConfigMessage::new(
            self.screen_width,
            self.screen_height,
            self.refresh_millihz,
            Self::bucket_dpi(self.dpi),
            0,
            self.frame_mode,
        ).as_config_update()
    }

    /// Whether a frame that a commit brought goes to the App: it comes from the
    /// output's surface tree, fills the screen, and there is a session.
    pub fn commit(&self, is_output_tree: bool, frame: Option<(u32, u32)>, has_session: bool) -> (r:
        bool)
        ensures
            r == (is_output_tree && has_session && frame == Some(
                (self@.screen_width, self@.screen_height),
            )),
    {
        match frame {
            Some((w, h)) => is_output_tree && has_session && w == self.screen_width && h
                == self.screen_height,
            None => false,
        }
    }

    /// The refresh period in nanoseconds.
    pub fn vsync_period(&self) -> (r: u64)
        ensures
            r == period_ns(self@.refresh_millihz),
            self@.refresh_millihz > 0 ==> r * self@.refresh_millihz <= 1_000_000_000_000 < (r + 1)
                * self@.refresh_millihz,
    {
        proof {
            lemma_period_fills_a_second(self.refresh_millihz);
        }
        let rate: u64 = if self.refresh_millihz == 0 {
            1
        } else {
            self.refresh_millihz as u64
        };
        1_000_000_000_000u64 / rate
    }

    /// One beat: with callbacks or feedbacks queued, all of them are to be sent
    /// with these values. Without any, nothing happens.
    pub fn vsync_tick(&mut self, callbacks: usize, feedbacks: usize, elapsed_ms: u64) -> (r: Option<
        Tick,
    >)
        requires
            callbacks > 0 || feedbacks > 0 ==> old(self)@.vsync_seq < u64::MAX,
        ensures
            callbacks == 0 && feedbacks == 0 ==> r is None && final(self)@ == old(self)@,
            callbacks > 0 || feedbacks > 0 ==> {
                &&& r == Some(
                    Tick {
                        seq: old(self)@.vsync_seq,
                        now_ms: (elapsed_ms % 0x1_0000_0000) as u32,
                        period_ns: period_ns(old(self)@.refresh_millihz),
                    },
                )
                &&& final(self)@ == (CompositorState {
                    vsync_seq: (old(self)@.vsync_seq + 1) as u64,
                    ..old(self)@
                })
            },
    {
        if callbacks == 0 && feedbacks == 0 {
            return None;
        }
        let seq: u64 = self.vsync_seq;
        self.vsync_seq = seq + 1;
        Some(
            Tick {
                seq,
                now_ms: (elapsed_ms % 0x1_0000_0000) as u32,
                period_ns: self.vsync_period(),
            },
        )
    }
}

/// The link to the App: whether there is a session, and whether its socket is
/// watched.
#[derive(Clone, Copy, Debug, PartialEq, Eq, Structural)]
pub struct LandLink {
    pub session: bool,
    pub watched: bool,
}

impl LandLink {
    pub fn new() -> (r: Self)
        ensures
            r == (LandLink { session: false, watched: false }),
    {
        LandLink { session: false, watched: false }
    }

    /// An App has connected; it takes the place of the one before. True: stop
    /// watching that one's socket.
    pub fn accepted(&mut self) -> (r: bool)
        ensures
            r == (old(self).session && old(self).watched),
            *final(self) == (LandLink {
                session: true,
                watched: old(self).watched && !old(self).session,
            }),
    {
        let stop: bool = self.session && self.watched;
        if self.session {
            self.watched = false;
        }
        self.session = true;
        stop
    }

    /// The new socket is watched, or cannot be. True: send the App the settings
    /// in effect and look what it has sent already.
    pub fn registered(&mut self, ok: bool) -> (r: bool)
        ensures
            r == ok,
            *final(self) == (LandLink { watched: ok || old(self).watched, ..*old(self) }),
    {
        if ok {
            self.watched = true;
        }
        ok
    }

    /// The App's socket was read. True: the session is over, and its socket is
    /// no longer to be watched.
    pub fn input<F>(&mut self, action: &LandAction<F>) -> (r: bool)
        ensures
            r == (old(self).session && action is TearDown),
            *final(self) == (LandLink { session: old(self).session && !r, ..*old(self) }),
    {
        if !self.session {
            return false;
        }
        match action {
            LandAction::TearDown(_) => {
                self.session = false;
                true
            },
            _ => false,
        }
    }
}

/// What to do with the outcome of receiving from the App.
pub fn handle_land_input<F>(received: Result<Option<Message<F>>, RecvError>) -> (r: LandAction<F>)
    ensures
        r == (match received {
            Ok(Some(Message::Release(_))) => LandAction::<F>::Released,
            Ok(Some(Message::Touch(m))) => LandAction::Touch(m),
            Ok(Some(Message::Key(m))) => LandAction::Key(m),
            Ok(Some(Message::Config(m))) => LandAction::Apply(m),
            Ok(Some(other)) => LandAction::Unexpected(other),
            Ok(None) => LandAction::Idle,
            Err(e) => LandAction::TearDown(e),
        }),
{
    match received {
        Ok(Some(Message::Release(_))) => LandAction::Released,
        Ok(Some(Message::Touch(m))) => LandAction::Touch(m),
        Ok(Some(Message::Key(m))) => LandAction::Key(m),
        Ok(Some(Message::Config(m))) => LandAction::Apply(m),
        Ok(Some(other)) => LandAction::Unexpected(other),
        Ok(None) => LandAction::Idle,
        Err(e) => LandAction::TearDown(e),
    }
}

/// A density has one bucket, and buckets are their own.
pub proof fn lemma_bucket_is_unique(raw: u32, a: u32, b: u32)
    requires
        is_bucket_for(raw, a),
        is_bucket_for(raw, b),
    ensures
        a == b,
        is_bucket_for(a, a),
{
    let ka = choose|k: int| 0 <= k < dpi_buckets().len() && dpi_buckets()[k] == a;
    let kb = choose|k: int| 0 <= k < dpi_buckets().len() && dpi_buckets()[k] == b;
    assert(dpi_buckets()[ka] == a && dpi_buckets()[kb] == b);
}

/// A higher density never gets a lower bucket.
pub proof fn lemma_bucket_is_monotone(raw1: u32, raw2: u32, a: u32, b: u32)
    requires
        raw1 <= raw2,
        is_bucket_for(raw1, a),
        is_bucket_for(raw2, b),
    ensures
        a <= b,
{
    let ka = choose|k: int| 0 <= k < dpi_buckets().len() && dpi_buckets()[k] == a;
    let kb = choose|k: int| 0 <= k < dpi_buckets().len() && dpi_buckets()[k] == b;
    assert(dpi_buckets()[ka] == a && dpi_buckets()[kb] == b);
}

/// The period and the rate make up one second: no longer period fits into it as
/// often as the rate says.
pub proof fn lemma_period_fills_a_second(refresh_millihz: u32)
    ensures
        refresh_millihz > 0 ==> period_ns(refresh_millihz) * refresh_millihz
            <= 1_000_000_000_000 < (period_ns(refresh_millihz) + 1) * refresh_millihz,
        refresh_millihz == 0 ==> period_ns(refresh_millihz) == 1_000_000_000_000,
{
    if refresh_millihz > 0 {
        let rate = refresh_millihz as int;
        let q = 1_000_000_000_000int / rate;
        assert(0 <= q <= 1_000_000_000_000 && q * rate <= 1_000_000_000_000 < (q + 1) * rate)
            by (nonlinear_arith)
            requires
                rate > 0,
                q == 1_000_000_000_000int / rate,
        ;
    }
}

/// A faster display has no longer period.
pub proof fn lemma_faster_is_shorter(slow: u32, fast: u32)
    requires
        0 < slow <= fast,
    ensures
        period_ns(fast) <= period_ns(slow),
{
    lemma_period_fills_a_second(slow);
    lemma_period_fills_a_second(fast);
    let (p, q) = (period_ns(fast) as int, period_ns(slow) as int);
    assert(p <= q) by (nonlinear_arith)
        requires
            p * fast <= 1_000_000_000_000,
            1_000_000_000_000 < (q + 1) * slow,
            0 < slow <= fast,
            0 <= p,
            0 <= q,
    ;
}

/// The bucket of a density is one of eight, and none of them is nearer. Midway
/// between two it is the larger.
pub proof fn lemma_bucket_is_nearest(raw: u32, b: u32, c: u32)
    requires
        is_bucket_for(raw, b),
        c == 96 || c == 120 || c == 144 || c == 160 || c == 192 || c == 240 || c == 288 || c == 384,
    ensures
        b == 96 || b == 120 || b == 144 || b == 160 || b == 192 || b == 240 || b == 288 || b == 384,
        -(if raw > c {
            raw - c
        } else {
            c - raw
        }) <= raw - b <= (if raw > c {
            raw - c
        } else {
            c - raw
        }),
        raw - b == c - raw ==> c <= b,
{
    let all = dpi_buckets();
    assert(all[0] == 96 && all[1] == 120 && all[2] == 144 && all[3] == 160);
    assert(all[4] == 192 && all[5] == 240 && all[6] == 288 && all[7] == 384);
}

/// The pointer follows a touch: it is pressed where the touch begins, moves with
/// it, and is released where it ends. Nothing else presses or releases it.
pub proof fn lemma_pointer_follows_touch(phase: u32)
    ensures
        pointer_plan(phase) is MoveAndPress <==> phase == 0,
        pointer_plan(phase) is Move <==> phase == 1,
        pointer_plan(phase) is Release <==> phase == 2,
        pointer_plan(phase) is Nothing <==> phase > 2,
{
}

} // verus!
