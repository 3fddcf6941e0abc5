//! Aids for tests: a settable clock and a guard against leaked descriptors.

use vstd::prelude::*;
use crate::text::push_decimal;

verus! {

/// Interval of 144 ticks a second, in nanoseconds.
pub const DEFAULT_TICK_NS: u64 = 6_944_444;

/// A clock that can be set. Times are nanoseconds.
pub struct MockClock {
    set: Option<u64>,
    tick: u64,
}

/// The time that was set, and the tick interval that was set.
pub struct ClockState {
    pub set: Option<u64>,
    pub tick: u64,
}

impl View for MockClock {
    type V = ClockState;

    closed spec fn view(&self) -> ClockState {
        ClockState { set: self.set, tick: self.tick }
    }
}

impl MockClock {
    pub fn new() -> (r: Self)
        ensures
            r@ == (ClockState { set: None, tick: 0 }),
    {
        MockClock { set: None, tick: 0 }
    }

    pub fn set_now(&mut self, now: u64)
        ensures
            final(self)@ == (ClockState { set: Some(now), ..old(self)@ }),
    {
        self.set = Some(now);
    }

    /// The time that was set, or else the actual one.
    pub fn now(&self, actual: u64) -> (r: u64)
        ensures
            r == (match self@.set {
                Some(t) => t,
                None => actual,
            }),
    {
        match self.set {
            Some(t) => t,
            None => actual,
        }
    }

    /// Sets the clock `d` past its present time.
    pub fn advance(&mut self, d: u64, actual: u64)
        requires
            (match old(self)@.set {
                Some(t) => t,
                None => actual,
            }) + d <= u64::MAX,
        ensures
            final(self)@ == (ClockState {
                set: Some(
                    ((match old(self)@.set {
                        Some(t) => t,
                        None => actual,
                    }) + d) as u64,
                ),
                ..old(self)@
            }),
    {
        let now: u64 = self.now(actual);
        self.set = Some(now + d);
    }

    /// Back to the real time.
    pub fn clear(&mut self)
        ensures
            final(self)@ == (ClockState { set: None, ..old(self)@ }),
    {
        self.set = None;
    }

    pub fn set_tick_interval(&mut self, d: u64)
        ensures
            final(self)@ == (ClockState { tick: d, ..old(self)@ }),
    {
        self.tick = d;
    }

    /// The interval that was set; zero stands for the default.
    pub fn tick_interval(&self) -> (r: u64)
        ensures
            r == (if self@.tick == 0 {
                DEFAULT_TICK_NS
            } else {
                self@.tick
            }),
    {
        if self.tick == 0 {
            DEFAULT_TICK_NS
        } else {
            self.tick
        }
    }
}

/// A changed number of open descriptors.
#[derive(Clone, Copy, Debug, PartialEq, Eq)]
pub struct FdLeak {
    /// What was guarded.
    pub label: &'static str,
    pub current: usize,
    pub initial: usize,
}

impl FdLeak {
    /// The text of the failure.
    pub open spec fn text(self) -> Seq<char> {
        "FdCountGuard ["@ + self.label@ + "]: fd count changed: "@ + crate::text::decimal(
            self.current as nat,
        ) + " != "@ + crate::text::decimal(self.initial as nat) + " (leak detected)"@
    }

    /// Names what was guarded, the count now and the count then.
    pub fn to_text(&self) -> (r: String)
        ensures
            r@ == self.text(),
    {
        let mut out = String::new();
        out.append("FdCountGuard [");
        out.append(self.label);
        out.append("]: fd count changed: ");
        push_decimal(&mut out, self.current);
        out.append(" != ");
        push_decimal(&mut out, self.initial);
        out.append(" (leak detected)");
        assert(out@ =~= self.text());
        out
    }
}

/// Remembers how many descriptors were open.
pub struct FdCountGuard {
    pub initial: usize,
    pub label: &'static str,
}

impl FdCountGuard {
    pub fn new(label: &'static str, open: usize) -> (r: Self)
        ensures
            r.initial == open,
            r.label == label,
    {
        FdCountGuard { initial: open, label }
    }

    /// Fails exactly when another number is open now, be it more or fewer.
    pub fn check(&self, open: usize) -> (r: Result<(), FdLeak>)
        ensures
            r == (if open == self.initial {
                Ok::<(), FdLeak>(())
            } else {
                Err(FdLeak { label: self.label, current: open, initial: self.initial })
            }),
    {
        if open != self.initial {
            Err(FdLeak { label: self.label, current: open, initial: self.initial })
        } else {
            Ok(())
        }
    }
}

/// A leak is told with what was guarded and both counts, in full.
pub proof fn lemma_leak_names_its_counts(leak: FdLeak)
    ensures
        leak.text() == "FdCountGuard ["@ + leak.label@ + "]: fd count changed: "@
            + crate::text::decimal(leak.current as nat) + " != "@ + crate::text::decimal(
            leak.initial as nat,
        ) + " (leak detected)"@,
{
}

} // verus!
