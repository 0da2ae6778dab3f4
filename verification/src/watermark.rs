//! Watermark source.
//!
//! Turns a raw, possibly reordered feed of timestamped events into a stream
//! with a monotonically advancing logical clock bounded by a maximum allowed
//! lateness.  An event older than the current watermark is dropped and
//! counted; every other event is emitted and may advance the watermark to its
//! event time minus the lateness bound.  The watermark is initialized from
//! the first event.

use vstd::prelude::*;

verus! {

/// `a - b`, stopping at zero.
pub open spec fn sat_sub_spec(a: u64, b: u64) -> u64 {
    if a >= b {
        (a - b) as u64
    } else {
        0
    }
}

/// State of one worker's watermark source.
#[derive(Clone, Copy, Debug, PartialEq, Eq, Structural)]
pub struct WatermarkSource {
    /// Logical clock: no event with `event_time < current_watermark` will be
    /// emitted any more.
    pub current_watermark: u64,
    /// Whether the first event has been seen; the watermark starts from it.
    pub initialized: bool,
    /// The lateness bound, seconds.
    pub max_delay: u64,
    /// Count of events dropped as too late, for observability.
    pub dropped: u64,
    /// Whether the end-of-stream sentinel has been observed.
    pub closed: bool,
}

impl WatermarkSource {
    /// The watermark never moves backwards; a fresh source reports zero.
    pub open spec fn wf(self) -> bool {
        !self.initialized ==> self.current_watermark == 0
    }

    /// Whether an event with time `t` is emitted in the current state: the
    /// first event always is, afterwards exactly those not older than the
    /// watermark.
    pub open spec fn admits(self, t: u64) -> bool {
        !self.initialized || t >= self.current_watermark
    }

    /// The state after observing an event with time `t`.
    pub open spec fn observe_spec(self, t: u64) -> WatermarkSource {
        if self.closed {
            self
        } else if !self.admits(t) {
            WatermarkSource {
                dropped: if self.dropped == u64::MAX {
                    self.dropped
                } else {
                    (self.dropped + 1) as u64
                },
                ..self
            }
        } else {
            let base = if self.initialized {
                self.current_watermark
            } else {
                sat_sub_spec(t, self.max_delay)
            };
            WatermarkSource {
                initialized: true,
                current_watermark: if sat_sub_spec(t, self.max_delay) > base {
                    sat_sub_spec(t, self.max_delay)
                } else {
                    base
                },
                ..self
            }
        }
    }

    pub fn new(max_delay: u64) -> (s: WatermarkSource)
        ensures
            s.wf(),
            s == (WatermarkSource {
                current_watermark: 0,
                initialized: false,
                max_delay,
                dropped: 0,
                closed: false,
            }),
    {
        WatermarkSource {
            current_watermark: 0,
            initialized: false,
            max_delay,
            dropped: 0,
            closed: false,
        }
    }

    /// Observes one data event; returns whether it is to be emitted
    /// downstream.  An event that is not emitted is lost silently and only
    /// counted.  The watermark never decreases.
    pub fn observe(&mut self, t: u64) -> (emitted: bool)
        requires
            old(self).wf(),
        ensures
            final(self).wf(),
            *final(self) == old(self).observe_spec(t),
            emitted == (!old(self).closed && old(self).admits(t)),
            final(self).current_watermark >= old(self).current_watermark,
    {
        if self.closed {
            return false;
        }
        if self.initialized && t < self.current_watermark {
            if self.dropped < u64::MAX {
                self.dropped = self.dropped + 1;
            }
            return false;
        }
        let low = if t >= self.max_delay {
            t - self.max_delay
        } else {
            0
        };
        if !self.initialized {
            self.initialized = true;
            self.current_watermark = low;
        } else if low > self.current_watermark {
            self.current_watermark = low;
        }
        true
    }

    /// Observes the end-of-stream sentinel; the source is closed for good and
    /// every later event is ignored.
    pub fn close(&mut self)
        ensures
            *final(self) == (WatermarkSource { closed: true, ..*old(self) }),
    {
        self.closed = true;
    }

    pub fn current_watermark(&self) -> (r: u64)
        ensures
            r == self.current_watermark,
    {
        self.current_watermark
    }

    pub fn dropped(&self) -> (r: u64)
        ensures
            r == self.dropped,
    {
        self.dropped
    }

    pub fn is_closed(&self) -> (r: bool)
        ensures
            r == self.closed,
    {
        self.closed
    }

    /// The state after observing a whole sequence of data events.
    pub open spec fn run_spec(self, ts: Seq<u64>) -> WatermarkSource
        decreases ts.len(),
    {
        if ts.len() == 0 {
            self
        } else {
            self.observe_spec(ts[0]).run_spec(ts.drop_first())
        }
    }
}

/// The highest safe watermark a sequence of events allows: the largest
/// `event_time - max_delay` among them, stopping at zero.
pub open spec fn low_bound(ts: Seq<u64>, delay: u64) -> u64
    decreases ts.len(),
{
    if ts.len() == 0 {
        0
    } else {
        let rest = low_bound(ts.drop_first(), delay);
        if sat_sub_spec(ts[0], delay) > rest {
            sat_sub_spec(ts[0], delay)
        } else {
            rest
        }
    }
}

/// Lateness bound: over any sequence of observed events the watermark never
/// exceeds the highest `event_time - max_delay` observed — so an event no
/// older than the lateness bound behind the newest is always admitted.
pub proof fn lemma_watermark_bounded(s: WatermarkSource, ts: Seq<u64>)
    requires
        s.wf(),
    ensures
        s.run_spec(ts).current_watermark <= s.current_watermark || s.run_spec(
            ts,
        ).current_watermark <= low_bound(ts, s.max_delay),
    decreases ts.len(),
{
    if ts.len() > 0 {
        let s2 = s.observe_spec(ts[0]);
        assert(s2.wf());
        assert(s2.max_delay == s.max_delay);
        assert(s2.current_watermark <= s.current_watermark || s2.current_watermark
            <= sat_sub_spec(ts[0], s.max_delay));
        lemma_watermark_bounded(s2, ts.drop_first());
    }
}

/// Watermark monotonicity: over any sequence of observed events the
/// watermark never decreases.
pub proof fn lemma_watermark_monotone(s: WatermarkSource, ts: Seq<u64>)
    requires
        s.wf(),
    ensures
        s.run_spec(ts).wf(),
        s.run_spec(ts).current_watermark >= s.current_watermark,
    decreases ts.len(),
{
    if ts.len() > 0 {
        assert(s.observe_spec(ts[0]).wf());
        assert(s.observe_spec(ts[0]).current_watermark >= s.current_watermark);
        lemma_watermark_monotone(s.observe_spec(ts[0]), ts.drop_first());
    }
}

} // verus!
