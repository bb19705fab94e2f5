//! The timeline of a parameter: its automation events in the order of their times, which of them is
//! current, and which frames of a quantum each one fills.
//!
//! Times are seconds on the context clock. What only arithmetic can tell of a time (where it falls on the
//! frames) comes with it, in a [`Moment`].

use vstd::prelude::*;

use crate::dsp::param::Rate;
use crate::float::{Double, Single};
use crate::grid;

verus! {

/// Live events one timeline holds.
pub const EVENT_CAPACITY: usize = 64;

/// Frames beyond this are not exact as doubles: 2^53.
pub const FRAME_LIMIT: u64 = 0x20_0000_0000_0000;

/// A time, and where it falls: on the frames, a frame later, one and a half quanta later (in seconds),
/// and the first whole frame at or after it.
#[derive(Clone, Copy, Debug, PartialEq, Eq, Structural)]
pub struct Moment {
    pub time: Double,
    pub frame: Double,
    pub after: Double,
    pub gone: Double,
    pub up: u64,
}

impl Moment {
    /// A time that can be scheduled: a number from 0 on.
    pub open spec fn valid(self) -> bool {
        &&& self.time.is_number()
        &&& self.time.rank() >= 0
        &&& self.frame.is_number()
        &&& self.after.is_number()
        &&& self.gone.is_number()
    }

    /// The later of two.
    pub open spec fn later(self, other: Moment) -> Moment {
        if other.time.rank() > self.time.rank() {
            other
        } else {
            self
        }
    }
}

#[derive(Clone, Copy, Debug, PartialEq, Eq, Structural)]
pub enum Kind {
    SetValue,
    LinearRamp,
    ExponentialRamp,
    SetTarget,
    /// Where a cancel-and-hold cut the schedule.
    CancelValues,
}

impl Kind {
    pub open spec fn is_ramp(self) -> bool {
        self == Kind::LinearRamp || self == Kind::ExponentialRamp
    }

    pub fn ramp(self) -> (r: bool)
        ensures
            r == self.is_ramp(),
    {
        self == Kind::LinearRamp || self == Kind::ExponentialRamp
    }
}

/// The ramp a cancel cut short.
#[derive(Clone, Copy, Debug, PartialEq, Eq, Structural)]
pub struct Saved {
    pub kind: Kind,
    pub value: Single,
    pub at: Moment,
}

#[derive(Clone, Copy, Debug, PartialEq, Eq, Structural)]
pub struct Event {
    pub kind: Kind,
    pub value: Single,
    pub at: Moment,
    /// A ramp's start value when nothing precedes it.
    pub initial_value: Single,
    pub time_constant: Double,
    pub saved: Option<Saved>,
    /// A cut ramp whose value at the cut is known.
    pub settled: bool,
    /// Inserted since the last render, so still to be held to its time.
    pub is_new: bool,
}

impl Event {
    /// An event of a kind, with nothing more to it.
    pub open spec fn plain(kind: Kind, value: Single, at: Moment) -> Event {
        Event {
            kind,
            value,
            at,
            initial_value: Single { bits: 0 },
            time_constant: Double { bits: 0 },
            saved: None,
            settled: false,
            is_new: false,
        }
    }

    pub fn new(kind: Kind, value: Single, at: Moment) -> (e: Event)
        ensures
            e == Event::plain(kind, value, at),
    {
        Event {
            kind,
            value,
            at,
            initial_value: Single { bits: 0 },
            time_constant: Double { bits: 0 },
            saved: None,
            settled: false,
            is_new: false,
        }
    }
}

/// Every event's time can be scheduled, and no event stands before an earlier one.
pub open spec fn in_order(events: Seq<Event>) -> bool {
    &&& forall|i: int| 0 <= i < events.len() ==> (#[trigger] events[i]).at.valid()
    &&& forall|i: int, j: int|
        0 <= i < j < events.len() ==> (#[trigger] events[i]).at.time.rank() <= (#[trigger] events[j]).at.time.rank()
}

/// The first event from `i` on that is past a time.
pub open spec fn first_past(events: Seq<Event>, time: Double, i: int) -> int
    decreases events.len() - i,
{
    if i >= events.len() || events[i].at.time.rank() > time.rank() {
        i
    } else {
        first_past(events, time, i + 1)
    }
}

/// The first event from `i` on that is at a time or past it.
pub open spec fn first_from(events: Seq<Event>, time: Double, i: int) -> int
    decreases events.len() - i,
{
    if i >= events.len() || events[i].at.time.rank() >= time.rank() {
        i
    } else {
        first_from(events, time, i + 1)
    }
}

/// Event `i` still produces values at a frame: its successor has not started, or it is a value that
/// landed inside the frame before.
pub open spec fn is_current(events: Seq<Event>, i: int, frame: Double) -> bool {
    ||| i + 1 >= events.len()
    ||| events[i + 1].at.frame.rank() >= frame.rank()
    ||| {
        &&& events[i].kind == Kind::SetValue
        &&& events[i].at.frame.rank() <= frame.rank()
        &&& frame.rank() < events[i].at.after.rank()
    }
}

/// The first event from `i` on that is current.
pub open spec fn first_current(events: Seq<Event>, i: int, frame: Double) -> int
    decreases events.len() - i,
{
    if i >= events.len() || is_current(events, i, frame) {
        i
    } else {
        first_current(events, i + 1, frame)
    }
}

/// Without its first `count` events; the last one always stays.
pub open spec fn without_old(events: Seq<Event>, count: int) -> Seq<Event> {
    if events.len() > 1 {
        events.skip(grid::min_int(count, events.len() - 1))
    } else {
        events
    }
}

/// An event in its place: behind all that are no later.
pub open spec fn placed(events: Seq<Event>, event: Event) -> Seq<Event> {
    events.insert(first_past(events, event.at.time, 0), event)
}

/// An event inserted, as far as there is room.
pub open spec fn put(events: Seq<Event>, event: Event) -> Seq<Event> {
    if events.len() < EVENT_CAPACITY {
        placed(events, event)
    } else {
        events
    }
}

/// The events in the order of their times, those of one time in the order they had.
pub open spec fn sorted(events: Seq<Event>) -> Seq<Event>
    decreases events.len(),
{
    if events.len() == 0 {
        events
    } else {
        placed(sorted(events.drop_last()), events.last())
    }
}

/// Where time has come to: the next quantum's first frame, as a double and as a time.
#[derive(Clone, Copy, Debug, PartialEq, Eq, Structural)]
pub struct Now {
    pub frame: Double,
    pub at: Moment,
}

impl Now {
    pub open spec fn wf(self) -> bool {
        self.frame.is_number() && self.at.valid()
    }
}

/// An event inserted: the past is dropped first, and a ramp that nothing precedes starts from the value
/// the parameter had.
pub open spec fn inserted(events: Seq<Event>, event: Event, now: Now) -> Seq<Event> {
    let kept = without_old(events, first_current(events, 0, now.frame));
    let fresh = Event { is_new: true, ..event };
    let begun = if kept.len() == 0 && event.kind.is_ramp() {
        seq![Event { is_new: true, ..Event::plain(Kind::SetValue, event.initial_value, now.at) }]
    } else {
        kept
    };
    put(begun, fresh)
}

/// What a cancel-and-hold leaves: everything past the time goes; a ramp or an approach that the time
/// cuts is held where it has got to.
pub open spec fn held(events: Seq<Event>, at: Moment, now: Now) -> Seq<Event> {
    let i = first_past(events, at.time, 0);
    let approach = i > 0 && events[i - 1].kind == Kind::SetTarget;
    if !approach && i >= events.len() {
        events
    } else if approach {
        if events[i - 1].at.time.rank() < at.time.rank() {
            inserted(events.take(i), Event::plain(Kind::CancelValues, Single { bits: 0 }, at), now)
        } else {
            events.take(i - 1)
        }
    } else if events[i].kind.is_ramp() {
        let saved = Saved { kind: events[i].kind, value: events[i].value, at: events[i].at };
        inserted(
            events.take(i),
            Event { saved: Some(saved), ..Event::plain(Kind::CancelValues, Single { bits: 0 }, at) },
            now,
        )
    } else {
        events.take(i)
    }
}

proof fn lemma_first_past(events: Seq<Event>, time: Double, i: int)
    requires
        0 <= i <= events.len(),
    ensures
        i <= first_past(events, time, i) <= events.len(),
        forall|k: int| i <= k < first_past(events, time, i) ==> (#[trigger] events[k]).at.time.rank() <= time.rank(),
        first_past(events, time, i) < events.len() ==> events[first_past(events, time, i)].at.time.rank() > time.rank(),
    decreases events.len() - i,
{
    if i < events.len() && events[i].at.time.rank() <= time.rank() {
        lemma_first_past(events, time, i + 1);
    }
}

proof fn lemma_first_from(events: Seq<Event>, time: Double, i: int)
    requires
        0 <= i <= events.len(),
    ensures
        i <= first_from(events, time, i) <= events.len(),
    decreases events.len() - i,
{
    if i < events.len() && events[i].at.time.rank() < time.rank() {
        lemma_first_from(events, time, i + 1);
    }
}

proof fn lemma_first_current(events: Seq<Event>, i: int, frame: Double)
    requires
        0 <= i <= events.len(),
    ensures
        i <= first_current(events, i, frame) <= events.len(),
        i < events.len() ==> first_current(events, i, frame) < events.len(),
    decreases events.len() - i,
{
    if i < events.len() && !is_current(events, i, frame) {
        lemma_first_current(events, i + 1, frame);
    }
}

/// An event in its place keeps the order.
proof fn lemma_placed(events: Seq<Event>, event: Event)
    requires
        in_order(events),
        event.at.valid(),
    ensures
        in_order(placed(events, event)),
        placed(events, event).len() == events.len() + 1,
{
    let p = first_past(events, event.at.time, 0);
    lemma_first_past(events, event.at.time, 0);
    let after = placed(events, event);
    assert forall|i: int, j: int| 0 <= i < j < after.len() implies (#[trigger] after[i]).at.time.rank() <= (
    #[trigger] after[j]).at.time.rank() by {
        if j > p {
            assert(events[p].at.time.rank() <= events[j - 1].at.time.rank());
        }
    }
}

proof fn lemma_sorted(events: Seq<Event>)
    requires
        forall|i: int| 0 <= i < events.len() ==> (#[trigger] events[i]).at.valid(),
    ensures
        in_order(sorted(events)),
        sorted(events).len() == events.len(),
    decreases events.len(),
{
    if events.len() > 0 {
        lemma_sorted(events.drop_last());
        lemma_placed(sorted(events.drop_last()), events.last());
    }
}

/// A timeline in order is sorted already.
pub proof fn law_sorting_keeps_an_ordered_timeline(events: Seq<Event>)
    requires
        in_order(events),
    ensures
        sorted(events) == events,
    decreases events.len(),
{
    if events.len() > 0 {
        let front = events.drop_last();
        law_sorting_keeps_an_ordered_timeline(front);
        let time = events.last().at.time;
        lemma_first_past(front, time, 0);
        let p = first_past(front, time, 0);
        if p < front.len() {
            assert(events[p].at.time.rank() <= events[events.len() - 1].at.time.rank());
        }
        assert(placed(front, events.last()) =~= events);
    }
}

/// What is to be filled of a quantum, once its first part is.
#[derive(Clone, Copy, Debug, PartialEq, Eq, Structural)]
pub struct Walk {
    /// The event looked at.
    pub event: usize,
    /// How many values are filled.
    pub filled: usize,
    /// The frame the next value is for.
    pub frame: u64,
    /// Events passed over, to be dropped at the end.
    pub skipped: usize,
}

/// How a quantum's values begin.
#[derive(Clone, Copy, Debug, PartialEq, Eq, Structural)]
pub enum Begin {
    /// They are all this one.
    Flat(Single),
    /// The default up to here, then the events.
    Events(Walk),
}

/// Where an event goes: the value and the time it comes from, those it goes to, and the way.
#[derive(Clone, Copy, Debug, PartialEq, Eq, Structural)]
pub struct Aim {
    pub from: Single,
    pub from_at: Moment,
    /// None: the value a cut ramp has got to, still to be found.
    pub to: Option<Single>,
    /// None: nothing follows.
    pub to_at: Option<Moment>,
    pub way: Option<Kind>,
}

/// A parameter: its values and its timeline.
pub struct AudioParam {
    pub rate: Rate,
    pub intrinsic: Single,
    pub default: Single,
    pub min: Single,
    pub max: Single,
    pub events: Vec<Event>,
    /// A signal sums into the parameter.
    pub connected: bool,
}

impl AudioParam {
    pub open spec fn wf(&self) -> bool {
        in_order(self.events@) && self.events@.len() <= EVENT_CAPACITY
    }

    /// All but the events is as it was.
    pub open spec fn only_events(&self, before: &AudioParam) -> bool {
        *self == (AudioParam { events: self.events, ..*before })
    }

    pub fn new(default: Single, min: Single, max: Single, rate: Rate) -> (p: Self)
        ensures
            p.wf(),
            p.events@.len() == 0,
            p.intrinsic == default,
            p.default == default,
            p.min == min,
            p.max == max,
            p.rate == rate,
            !p.connected,
    {
        AudioParam { rate, intrinsic: default, default, min, max, events: Vec::new(), connected: false }
    }

    /// As freshly built: no events, the default value, nothing connected.
    pub fn reset(&mut self)
        ensures
            final(self).wf(),
            final(self).events@.len() == 0,
            *final(self) == (AudioParam {
                intrinsic: old(self).default,
                connected: false,
                events: final(self).events,
                ..*old(self)
            }),
    {
        self.events.clear();
        self.intrinsic = self.default;
        self.connected = false;
    }

    /// A signal is (or is no longer) connected.
    pub fn set_connected(&mut self, connected: bool)
        ensures
            *final(self) == (AudioParam { connected, ..*old(self) }),
    {
        self.connected = connected;
    }

    /// The first event past a time.
    fn find_past(&self, time: Double) -> (i: usize)
        requires
            self.wf(),
            time.is_number(),
        ensures
            i == first_past(self.events@, time, 0),
            i <= self.events@.len(),
    {
        let mut i: usize = 0;
        while i < self.events.len() && !self.events[i].at.time.above(time)
            invariant
                self.wf(),
                time.is_number(),
                i <= self.events@.len(),
                first_past(self.events@, time, 0) == first_past(self.events@, time, i as int),
            decreases self.events@.len() - i,
        {
            i = i + 1;
        }
        i
    }

    /// Event `i` still produces values at a frame.
    fn is_event_current(&self, i: usize, frame: Double) -> (r: bool)
        requires
            self.wf(),
            i < self.events@.len(),
            frame.is_number(),
        ensures
            r == is_current(self.events@, i as int, frame),
    {
        let event: Event = self.events[i];
        if i + 1 >= self.events.len() || self.events[i + 1].at.frame.at_least(frame) {
            return true;
        }
        event.kind == Kind::SetValue && frame.at_least(event.at.frame) && event.at.after.above(frame)
    }

    /// Drop the first `count` events, never the last one.
    fn remove_old_events(&mut self, count: usize)
        requires
            old(self).wf(),
        ensures
            final(self).wf(),
            final(self).only_events(old(self)),
            final(self).events@ == without_old(old(self).events@, count as int),
    {
        let n: usize = self.events.len();
        if n > 1 {
            let k: usize = if count < n - 1 {
                count
            } else {
                n - 1
            };
            let mut i: usize = 0;
            assert(self.events@ =~= old(self).events@.skip(0));
            while i < k
                invariant
                    i <= k < n == old(self).events@.len(),
                    self.only_events(old(self)),
                    self.events@ == old(self).events@.skip(i as int),
                decreases k - i,
            {
                self.events.remove(0);
                i = i + 1;
                assert(self.events@ =~= old(self).events@.skip(i as int));
            }
        }
    }

    fn push_event(&mut self, event: Event)
        requires
            old(self).wf(),
            event.at.valid(),
        ensures
            final(self).wf(),
            final(self).only_events(old(self)),
            final(self).events@ == put(old(self).events@, event),
    {
        let at: usize = self.find_past(event.at.time);
        if self.events.len() < EVENT_CAPACITY {
            proof {
                lemma_placed(self.events@, event);
            }
            self.events.insert(at, event);
            assert(self.events@ == placed(old(self).events@, event));
        }
    }

    fn insert_event(&mut self, event: Event, now: &Now)
        requires
            old(self).wf(),
            event.at.valid(),
            now.wf(),
        ensures
            final(self).wf(),
            final(self).only_events(old(self)),
            final(self).events@ == inserted(old(self).events@, event, *now),
    {
        let n: usize = self.events.len();
        let mut skipped: usize = 0;
        while skipped < n && !self.is_event_current(skipped, now.frame)
            invariant
                self.wf(),
                *self == *old(self),
                n == self.events@.len(),
                now.wf(),
                skipped <= n,
                first_current(self.events@, 0, now.frame) == first_current(self.events@, skipped as int, now.frame),
            decreases n - skipped,
        {
            skipped = skipped + 1;
        }
        self.remove_old_events(skipped);
        let mut fresh: Event = event;
        fresh.is_new = true;
        if self.events.len() == 0 && event.kind.ramp() {
            let mut start: Event = Event::new(Kind::SetValue, event.initial_value, now.at);
            start.is_new = true;
            self.push_event(start);
            assert(self.events@ =~= seq![start]);
        }
        self.push_event(fresh);
    }

    /// An event's time, no earlier than the next quantum.
    fn no_earlier(at: Moment, now: &Now) -> (m: Moment)
        requires
            at.valid(),
            now.wf(),
        ensures
            m == at.later(now.at),
            m.valid(),
    {
        if now.at.time.above(at.time) {
            now.at
        } else {
            at
        }
    }

    /// A value from a time on.
    pub fn set_value_at_time(&mut self, value: Single, at: Moment, now: &Now)
        requires
            old(self).wf(),
            at.valid(),
            now.wf(),
        ensures
            final(self).wf(),
            final(self).only_events(old(self)),
            final(self).events@ == inserted(
                old(self).events@,
                Event::plain(Kind::SetValue, value, at.later(now.at)),
                *now,
            ),
    {
        let m: Moment = Self::no_earlier(at, now);
        self.insert_event(Event::new(Kind::SetValue, value, m), now);
    }

    /// A straight line to a value at a time.
    pub fn linear_ramp_to_value_at_time(&mut self, value: Single, at: Moment, now: &Now)
        requires
            old(self).wf(),
            at.valid(),
            now.wf(),
        ensures
            final(self).wf(),
            final(self).only_events(old(self)),
            final(self).events@ == inserted(
                old(self).events@,
                Event {
                    initial_value: old(self).intrinsic,
                    ..Event::plain(Kind::LinearRamp, value, at.later(now.at))
                },
                *now,
            ),
    {
        let m: Moment = Self::no_earlier(at, now);
        let mut event: Event = Event::new(Kind::LinearRamp, value, m);
        event.initial_value = self.intrinsic;
        self.insert_event(event, now);
    }

    /// An exponential to a value at a time. None leads to zero: nothing is scheduled then.
    pub fn exponential_ramp_to_value_at_time(&mut self, value: Single, at: Moment, now: &Now)
        requires
            old(self).wf(),
            at.valid(),
            now.wf(),
        ensures
            final(self).wf(),
            final(self).only_events(old(self)),
            final(self).events@ == (if value.rank() == 0 {
                old(self).events@
            } else {
                inserted(
                    old(self).events@,
                    Event {
                        initial_value: old(self).intrinsic,
                        ..Event::plain(Kind::ExponentialRamp, value, at.later(now.at))
                    },
                    *now,
                )
            }),
    {
        if value.is_zero() {
            return;
        }
        let m: Moment = Self::no_earlier(at, now);
        let mut event: Event = Event::new(Kind::ExponentialRamp, value, m);
        event.initial_value = self.intrinsic;
        self.insert_event(event, now);
    }

    /// An approach to a value from a time on, `time_constant` slow; at once where that is 0.
    pub fn set_target_at_time(&mut self, target: Single, at: Moment, time_constant: Double, now: &Now)
        requires
            old(self).wf(),
            at.valid(),
            now.wf(),
            time_constant.is_number(),
            time_constant.rank() >= 0,
        ensures
            final(self).wf(),
            final(self).only_events(old(self)),
            final(self).events@ == inserted(
                old(self).events@,
                if time_constant.rank() == 0 {
                    Event::plain(Kind::SetValue, target, at.later(now.at))
                } else {
                    Event { time_constant, ..Event::plain(Kind::SetTarget, target, at.later(now.at)) }
                },
                *now,
            ),
    {
        let m: Moment = Self::no_earlier(at, now);
        if time_constant.above(Double { bits: 0 }) {
            let mut event: Event = Event::new(Kind::SetTarget, target, m);
            event.time_constant = time_constant;
            self.insert_event(event, now);
        } else {
            self.insert_event(Event::new(Kind::SetValue, target, m), now);
        }
    }

    /// Every event from a time on is dropped.
    pub fn cancel_scheduled_values(&mut self, at: Moment, now: &Now)
        requires
            old(self).wf(),
            at.valid(),
            now.wf(),
        ensures
            final(self).wf(),
            final(self).only_events(old(self)),
            final(self).events@ == old(self).events@.take(
                first_from(old(self).events@, at.later(now.at).time, 0),
            ),
    {
        let m: Moment = Self::no_earlier(at, now);
        let mut i: usize = 0;
        while i < self.events.len() && !self.events[i].at.time.at_least(m.time)
            invariant
                self.wf(),
                *self == *old(self),
                m.valid(),
                i <= self.events@.len(),
                first_from(self.events@, m.time, 0) == first_from(self.events@, m.time, i as int),
            decreases self.events@.len() - i,
        {
            i = i + 1;
        }
        self.events.truncate(i);
        assert(self.events@ =~= old(self).events@.take(i as int));
    }

    /// Everything past a time is dropped, and what goes on there is held.
    pub fn cancel_and_hold_at_time(&mut self, at: Moment, now: &Now)
        requires
            old(self).wf(),
            at.valid(),
            now.wf(),
        ensures
            final(self).wf(),
            final(self).only_events(old(self)),
            final(self).events@ == held(old(self).events@, at.later(now.at), *now),
    {
        let m: Moment = Self::no_earlier(at, now);
        let i: usize = self.find_past(m.time);
        let n: usize = self.events.len();
        if i > 0 && self.events[i - 1].kind == Kind::SetTarget {
            if m.time.above(self.events[i - 1].at.time) {
                self.events.truncate(i);
                assert(self.events@ =~= old(self).events@.take(i as int));
                self.insert_event(Event::new(Kind::CancelValues, Single { bits: 0 }, m), now);
            } else {
                self.events.truncate(i - 1);
                assert(self.events@ =~= old(self).events@.take(i - 1));
            }
            return;
        }
        if i >= n {
            return;
        }
        let cut: Event = self.events[i];
        self.events.truncate(i);
        assert(self.events@ =~= old(self).events@.take(i as int));
        if cut.kind.ramp() {
            let mut event: Event = Event::new(Kind::CancelValues, Single { bits: 0 }, m);
            event.saved = Some(Saved { kind: cut.kind, value: cut.value, at: cut.at });
            self.insert_event(event, now);
        }
    }

    /// The values of a quantum must be computed frame by frame. `start` and `end` are its times.
    pub fn has_sample_accurate_values(&self, start: Double, end: Double) -> (r: bool)
        requires
            self.wf(),
            start.is_number(),
            end.is_number(),
        ensures
            r == (self.connected || self.events@.len() > 0 && {
                let first = self.events@[0];
                let level = first.kind == Kind::SetTarget || first.kind == Kind::SetValue;
                &&& !(first.at.time.rank() > end.rank() && level)
                &&& {
                    ||| self.events@.len() >= 2
                    ||| first.kind == Kind::SetTarget && first.at.time.rank() <= end.rank()
                    ||| first.kind != Kind::SetTarget && first.at.time.rank() >= start.rank()
                }
            }),
    {
        if self.connected {
            return true;
        }
        if self.events.len() == 0 {
            return false;
        }
        let first: Event = self.events[0];
        let level: bool = first.kind == Kind::SetTarget || first.kind == Kind::SetValue;
        if level && first.at.time.above(end) {
            return false;
        }
        if self.events.len() >= 2 {
            return true;
        }
        if first.kind == Kind::SetTarget {
            end.at_least(first.at.time)
        } else {
            first.at.time.at_least(start)
        }
    }

    // ── Rendering ────────────────────────────────────────────────────────────────────────────────

    /// The new events held to a time, none of them new any more.
    pub open spec fn clamped(events: Seq<Event>, at: Moment) -> Seq<Event> {
        Seq::new(
            events.len(),
            |i: int|
                Event {
                    at: if events[i].is_new && events[i].at.time.rank() < at.time.rank() {
                        at
                    } else {
                        events[i].at
                    },
                    is_new: false,
                    ..events[i]
                },
        )
    }

    /// Events inserted since the last render start no earlier than now; those of one time keep their
    /// order.
    fn clamp_new_events_to_current_time(&mut self, at: Moment)
        requires
            old(self).wf(),
            at.valid(),
        ensures
            final(self).wf(),
            final(self).only_events(old(self)),
            final(self).events@ == sorted(Self::clamped(old(self).events@, at)),
    {
        let n: usize = self.events.len();
        let ghost all = Self::clamped(self.events@, at);
        let mut i: usize = 0;
        while i < n
            invariant
                i <= n == self.events@.len() == all.len(),
                n <= EVENT_CAPACITY,
                at.valid(),
                in_order(old(self).events@),
                self.only_events(old(self)),
                all == Self::clamped(old(self).events@, at),
                old(self).events@.len() == n,
                forall|k: int| 0 <= k < i ==> self.events@[k] == all[k],
                forall|k: int| i <= k < n ==> self.events@[k] == old(self).events@[k],
            decreases n - i,
        {
            let mut event: Event = self.events[i];
            assert(old(self).events@[i as int].at.valid());
            if event.is_new && at.time.above(event.at.time) {
                event.at = at;
            }
            event.is_new = false;
            self.events[i] = event;
            i = i + 1;
        }
        assert(self.events@ =~= all);
        assert forall|k: int| 0 <= k < all.len() implies (#[trigger] all[k]).at.valid() by {
            assert(old(self).events@[k].at.valid());
        }
        let mut k: usize = 0;
        assert(self.events@ =~= sorted(all.take(0)) + all.skip(0));
        while k < n
            invariant
                k <= n == all.len(),
                n <= EVENT_CAPACITY,
                self.only_events(old(self)),
                forall|j: int| 0 <= j < all.len() ==> (#[trigger] all[j]).at.valid(),
                self.events@ == sorted(all.take(k as int)) + all.skip(k as int),
                self.events@.len() == n,
            decreases n - k,
        {
            let event: Event = self.events[k];
            let ghost front = sorted(all.take(k as int));
            proof {
                lemma_sorted(all.take(k as int));
                assert(event == all[k as int]);
            }
            let mut p: usize = 0;
            while p < k && !self.events[p].at.time.above(event.at.time)
                invariant
                    p <= k < n == self.events@.len(),
                    self.only_events(old(self)),
                    event.at.valid(),
                    front.len() == k,
                    in_order(front),
                    self.events@ == front + all.skip(k as int),
                    first_past(front, event.at.time, 0) == first_past(front, event.at.time, p as int),
                decreases k - p,
            {
                assert(self.events@[p as int] == front[p as int]);
                p = p + 1;
            }
            assert(p < k ==> self.events@[p as int] == front[p as int]);
            self.events.remove(k);
            self.events.insert(p, event);
            proof {
                assert(all.take(k + 1).drop_last() =~= all.take(k as int));
                assert(all.take(k + 1).last() == event);
                lemma_sorted(all.take(k + 1));
                assert(self.events@ =~= sorted(all.take(k + 1)) + all.skip(k + 1));
            }
            k = k + 1;
        }
        proof {
            assert(all.take(n as int) =~= all);
            lemma_sorted(all);
            assert(self.events@ =~= sorted(all));
        }
    }

    /// Begin the values of the frames `start..end`, `len` of them. `start_at` and `end_time` are the times
    /// of those frames; `converged` says of a last event that approaches its target that it has got there.
    pub fn begin(
        &mut self,
        start: u64,
        end: u64,
        len: usize,
        start_at: Moment,
        end_time: Double,
        default: Single,
        converged: bool,
    ) -> (b: Begin)
        requires
            old(self).wf(),
            start <= end < FRAME_LIMIT,
            start_at.valid(),
            end_time.is_number(),
        ensures
            final(self).wf(),
            final(self).only_events(old(self)),
            ({
                let events = old(self).events@;
                let later = sorted(Self::clamped(events, start_at));
                let any_new = exists|i: int| 0 <= i < events.len() && (#[trigger] events[i]).is_new;
                let now = if any_new {
                    later
                } else {
                    events
                };
                let last = now.last();
                let past = last.at.gone.rank() < start_at.time.rank() && (last.kind != Kind::SetTarget || converged);
                if events.len() == 0 || end_time.rank() <= events[0].at.time.rank() {
                    b == Begin::Flat(default) && final(self).events@ == events
                } else if past {
                    &&& b == Begin::Flat(
                        if last.kind == Kind::SetTarget {
                            last.value
                        } else {
                            default
                        },
                    )
                    &&& final(self).events@ == without_old(now, now.len() as int)
                } else {
                    let first = now[0].at;
                    let until = if end > first.up {
                        first.up as int
                    } else {
                        end as int
                    };
                    let n = if first.time.rank() > start_at.time.rank() {
                        grid::min_int(grid::max_int(until - start, 0), len as int)
                    } else {
                        0
                    };
                    &&& b == Begin::Events(
                        Walk { event: 0, filled: n as usize, frame: (start + n) as u64, skipped: 0 },
                    )
                    &&& final(self).events@ == now
                }
            }),
    {
        if self.events.len() == 0 {
            return Begin::Flat(default);
        }
        if self.events[0].at.time.at_least(end_time) {
            return Begin::Flat(default);
        }
        let n: usize = self.events.len();
        let mut any_new: bool = false;
        let mut i: usize = 0;
        while i < n
            invariant
                i <= n == self.events@.len(),
                *self == *old(self),
                any_new == exists|k: int| 0 <= k < i && (#[trigger] self.events@[k]).is_new,
            decreases n - i,
        {
            if self.events[i].is_new {
                any_new = true;
            }
            i = i + 1;
        }
        if any_new {
            self.clamp_new_events_to_current_time(start_at);
        }
        proof {
            assert forall|k: int| 0 <= k < old(self).events@.len() implies (#[trigger] Self::clamped(
                old(self).events@,
                start_at,
            )[k]).at.valid() by {
                assert(old(self).events@[k].at.valid());
            }
            lemma_sorted(Self::clamped(old(self).events@, start_at));
        }
        let m: usize = self.events.len();
        let last: Event = self.events[m - 1];
        if start_at.time.above(last.at.gone) && (last.kind != Kind::SetTarget || converged) {
            self.remove_old_events(m);
            return Begin::Flat(
                if last.kind == Kind::SetTarget {
                    last.value
                } else {
                    default
                },
            );
        }
        let first: Moment = self.events[0].at;
        let mut filled: usize = 0;
        if first.time.above(start_at.time) {
            let until: u64 = if end > first.up {
                first.up
            } else {
                end
            };
            let room: u64 = if until > start {
                until - start
            } else {
                0
            };
            filled = if room < len as u64 {
                room as usize
            } else {
                len
            };
        }
        Begin::Events(Walk { event: 0, filled, frame: start + filled as u64, skipped: 0 })
    }

    /// Go on to the event that is current, if values are left to fill.
    pub fn find(&self, walk: &mut Walk, len: usize) -> (found: bool)
        requires
            self.wf(),
            old(walk).event <= self.events@.len(),
            old(walk).skipped <= old(walk).event,
            old(walk).frame < FRAME_LIMIT,
        ensures
            final(walk).filled == old(walk).filled,
            final(walk).frame == old(walk).frame,
            final(walk).skipped <= final(walk).event <= self.events@.len(),
            final(walk).skipped - old(walk).skipped == final(walk).event - old(walk).event,
            exists|frame: Double|
                frame.is_dyadic(old(walk).frame as int, 0) && final(walk).event == (if old(walk).filled < len {
                    #[trigger] first_current(self.events@, old(walk).event as int, frame)
                } else {
                    old(walk).event as int
                }),
            found <==> old(walk).filled < len && old(walk).event < self.events@.len(),
    {
        let frame: Double = Double::dyadic(walk.frame, 0);
        let ghost from = walk.event as int;
        let ghost target = first_current(self.events@, from, frame);
        if walk.filled >= len {
            assert(walk.event == from);
            return false;
        }
        proof {
            lemma_first_current(self.events@, from, frame);
        }
        while walk.event < self.events.len() && !self.is_event_current(walk.event, frame)
            invariant
                self.wf(),
                frame.is_dyadic(old(walk).frame as int, 0),
                frame.is_number(),
                walk.event <= self.events@.len(),
                walk.skipped <= walk.event,
                walk.skipped - old(walk).skipped == walk.event - old(walk).event,
                walk.filled == old(walk).filled,
                walk.frame == old(walk).frame,
                target == first_current(self.events@, walk.event as int, frame),
            decreases self.events@.len() - walk.event,
        {
            walk.skipped = walk.skipped + 1;
            walk.event = walk.event + 1;
        }
        assert(walk.event == target);
        walk.event < self.events.len()
    }

    /// Event `i` is an approach that a ramp follows: the ramp starts where the approach has got to, so the
    /// event is rewritten as that value.
    pub fn must_rewrite(&self, i: usize) -> (r: bool)
        requires
            i < self.events@.len(),
        ensures
            r == (self.events@[i as int].kind == Kind::SetTarget && i + 1 < self.events@.len()
                && self.events@[i + 1].kind.is_ramp()),
    {
        let n: usize = self.events.len();
        self.events[i].kind == Kind::SetTarget && i < n - 1 && self.events[i + 1].kind.ramp()
    }

    /// Rewrite event `i` as a value from the frame that is being rendered.
    pub fn rewrite(&mut self, i: usize, value: Single, at: Moment)
        requires
            old(self).wf(),
            i < old(self).events@.len(),
            at.valid(),
            i > 0 ==> old(self).events@[i - 1].at.time.rank() <= at.time.rank(),
            i + 1 < old(self).events@.len() ==> at.time.rank() <= old(self).events@[i + 1].at.time.rank(),
        ensures
            final(self).wf(),
            final(self).only_events(old(self)),
            final(self).events@ == old(self).events@.update(i as int, Event::plain(Kind::SetValue, value, at)),
    {
        self.events[i] = Event::new(Kind::SetValue, value, at);
        proof {
            let (a, b) = (old(self).events@, self.events@);
            assert forall|x: int, y: int| 0 <= x < y < b.len() implies (#[trigger] b[x]).at.time.rank() <= (
            #[trigger] b[y]).at.time.rank() by {
                if x == i {
                    assert(a[i + 1].at.time.rank() <= a[y].at.time.rank() || y == i + 1);
                }
                if y == i {
                    assert(x == i - 1 || a[x].at.time.rank() <= a[i - 1].at.time.rank());
                }
            }
            assert forall|x: int| 0 <= x < b.len() implies (#[trigger] b[x]).at.valid() by {
                assert(a[x].at.valid());
            }
        }
    }

    /// Where event `i` goes: to the event behind it, or along the ramp that a cancel there cut.
    pub open spec fn aimed(events: Seq<Event>, i: int) -> Aim {
        let from = events[i];
        if i + 1 >= events.len() {
            Aim { from: from.value, from_at: from.at, to: Some(from.value), to_at: None, way: None }
        } else {
            let next = events[i + 1];
            if next.kind == Kind::CancelValues && next.saved is Some && from.kind != Kind::SetTarget {
                Aim {
                    from: from.value,
                    from_at: from.at,
                    to: if next.settled {
                        Some(next.value)
                    } else {
                        None
                    },
                    to_at: Some(next.at),
                    way: Some(next.saved->0.kind),
                }
            } else {
                Aim {
                    from: from.value,
                    from_at: from.at,
                    to: Some(next.value),
                    to_at: Some(next.at),
                    way: Some(next.kind),
                }
            }
        }
    }

    pub fn aim(&self, i: usize) -> (a: Aim)
        requires
            i < self.events@.len(),
        ensures
            a == Self::aimed(self.events@, i as int),
    {
        let from: Event = self.events[i];
        let n: usize = self.events.len();
        if i >= n - 1 {
            return Aim { from: from.value, from_at: from.at, to: Some(from.value), to_at: None, way: None };
        }
        let next: Event = self.events[i + 1];
        if next.kind == Kind::CancelValues && from.kind != Kind::SetTarget {
            if let Some(saved) = next.saved {
                let to: Option<Single> = if next.settled {
                    Some(next.value)
                } else {
                    None
                };
                return Aim { from: from.value, from_at: from.at, to, to_at: Some(next.at), way: Some(saved.kind) };
            }
        }
        Aim { from: from.value, from_at: from.at, to: Some(next.value), to_at: Some(next.at), way: Some(next.kind) }
    }

    /// The value a cut ramp has got to, found once.
    pub fn settle(&mut self, i: usize, value: Single)
        requires
            old(self).wf(),
            i < old(self).events@.len(),
        ensures
            final(self).wf(),
            final(self).only_events(old(self)),
            final(self).events@ == old(self).events@.update(
                i as int,
                Event { value, settled: true, ..old(self).events@[i as int] },
            ),
    {
        let mut event: Event = self.events[i];
        event.value = value;
        event.settled = true;
        self.events[i] = event;
        proof {
            let (a, b) = (old(self).events@, self.events@);
            assert forall|x: int| 0 <= x < b.len() implies (#[trigger] b[x]).at == a[x].at by {}
            assert forall|x: int, y: int| 0 <= x < y < b.len() implies (#[trigger] b[x]).at.time.rank() <= (
            #[trigger] b[y]).at.time.rank() by {
                assert(a[x].at.time.rank() <= a[y].at.time.rank());
            }
        }
    }

    /// The frame the current event's values end before: the whole frame its aim falls on or before, or the
    /// end.
    pub open spec fn until(aim: Aim, end: int) -> int {
        match aim.to_at {
            Some(at) => if end > at.up {
                at.up as int
            } else {
                end
            },
            None => end,
        }
    }

    /// How far the current event fills the values of the frames `start..end`, `len` of them.
    pub fn stretch(walk: &Walk, aim: &Aim, start: u64, end: u64, len: usize) -> (to: usize)
        requires
            walk.filled <= len,
        ensures
            walk.filled <= to <= len,
            to == grid::max_int(
                walk.filled as int,
                grid::min_int(Self::until(*aim, end as int) - start, len as int),
            ),
    {
        let until: u64 = match aim.to_at {
            Some(at) => if end > at.up {
                at.up
            } else {
                end
            },
            None => end,
        };
        let room: u64 = if until > start {
            until - start
        } else {
            0
        };
        let to: usize = if room < len as u64 {
            room as usize
        } else {
            len
        };
        if to > walk.filled {
            to
        } else {
            walk.filled
        }
    }

    /// The values are filled: what was passed over goes.
    pub fn finish(&mut self, walk: &Walk)
        requires
            old(self).wf(),
        ensures
            final(self).wf(),
            final(self).only_events(old(self)),
            final(self).events@ == without_old(old(self).events@, walk.skipped as int),
    {
        let n: usize = self.events.len();
        if walk.skipped > 0 {
            self.remove_old_events(walk.skipped);
        } else {
            assert(n > 1 ==> old(self).events@.skip(0) =~= old(self).events@);
        }
    }
}

/// Events of one time keep the order they were scheduled in: a new event stands behind every event that
/// is no later.
pub proof fn law_events_of_one_time_keep_their_order(events: Seq<Event>, event: Event, i: int)
    requires
        in_order(events),
        0 <= i < events.len(),
        events[i].at.time.rank() <= event.at.time.rank(),
    ensures
        placed(events, event)[i] == events[i],
        i < first_past(events, event.at.time, 0),
        placed(events, event)[first_past(events, event.at.time, 0)] == event,
{
    lemma_first_past(events, event.at.time, 0);
    let p = first_past(events, event.at.time, 0);
    if i >= p {
        assert(events[p].at.time.rank() <= events[i].at.time.rank());
    }
}

/// A cancelled schedule holds nothing from its time on.
pub proof fn law_a_cancel_leaves_nothing_from_its_time(events: Seq<Event>, time: Double, i: int)
    requires
        in_order(events),
        0 <= i < first_from(events, time, 0),
    ensures
        events[i].at.time.rank() < time.rank(),
{
    lemma_before(events, time, 0, i);
}

proof fn lemma_before(events: Seq<Event>, time: Double, k: int, i: int)
    requires
        0 <= k <= i < first_from(events, time, k),
    ensures
        events[i].at.time.rank() < time.rank(),
    decreases i - k,
{
    if k < i {
        lemma_before(events, time, k + 1, i);
    }
}

/// A new event stands before every event that is later, and nothing is lost.
pub proof fn law_later_events_stand_behind(events: Seq<Event>, event: Event, i: int)
    requires
        in_order(events),
        0 <= i < events.len(),
        events[i].at.time.rank() > event.at.time.rank(),
    ensures
        placed(events, event).len() == events.len() + 1,
        placed(events, event)[i + 1] == events[i],
        first_past(events, event.at.time, 0) <= i,
{
    lemma_first_past(events, event.at.time, 0);
    let p = first_past(events, event.at.time, 0);
    if i < p {
        lemma_not_past(events, event.at.time, 0, i);
    }
}

proof fn lemma_not_past(events: Seq<Event>, time: Double, k: int, i: int)
    requires
        0 <= k <= i < first_past(events, time, k),
    ensures
        events[i].at.time.rank() <= time.rank(),
    decreases i - k,
{
    if k < i {
        lemma_not_past(events, time, k + 1, i);
    }
}

/// A schedule cancelled and held at a time holds nothing past it.
pub proof fn law_a_hold_leaves_nothing_past_its_time(events: Seq<Event>, at: Moment, now: Now, x: int)
    requires
        in_order(events),
        0 <= x < held(events, at, now).len(),
    ensures
        held(events, at, now)[x].at.time.rank() <= at.time.rank(),
{
    lemma_first_past(events, at.time, 0);
    let i = first_past(events, at.time, 0);
    assert forall|y: int| 0 <= y < i implies (#[trigger] events[y]).at.time.rank() <= at.time.rank() by {
        lemma_not_past(events, at.time, 0, y);
    }
    let cut = events.take(i);
    lemma_inserted_not_past(cut, Event::plain(Kind::CancelValues, Single { bits: 0 }, at), at, now, x);
    if i < events.len() {
        let saved = Saved { kind: events[i].kind, value: events[i].value, at: events[i].at };
        lemma_inserted_not_past(
            cut,
            Event { saved: Some(saved), ..Event::plain(Kind::CancelValues, Single { bits: 0 }, at) },
            at,
            now,
            x,
        );
    }
}

proof fn lemma_inserted_not_past(events: Seq<Event>, event: Event, at: Moment, now: Now, x: int)
    requires
        forall|y: int| 0 <= y < events.len() ==> (#[trigger] events[y]).at.time.rank() <= at.time.rank(),
        event.at == at,
        event.kind == Kind::CancelValues,
    ensures
        0 <= x < inserted(events, event, now).len() ==> inserted(events, event, now)[x].at.time.rank() <= at.time.rank(),
{
    let kept = without_old(events, first_current(events, 0, now.frame));
    lemma_first_current_bounds(events, 0, now.frame);
    let fresh = Event { is_new: true, ..event };
    assert forall|y: int| 0 <= y < kept.len() implies (#[trigger] kept[y]).at.time.rank() <= at.time.rank() by {}
    lemma_first_past_bounds(kept, at.time, 0);
    let p = first_past(kept, at.time, 0);
    if kept.len() < EVENT_CAPACITY && 0 <= x < kept.len() + 1 {
        assert(placed(kept, fresh)[x] == (if x < p {
            kept[x]
        } else if x == p {
            fresh
        } else {
            kept[x - 1]
        }));
    }
}

proof fn lemma_first_current_bounds(events: Seq<Event>, i: int, frame: Double)
    requires
        0 <= i <= events.len(),
    ensures
        i <= first_current(events, i, frame) <= events.len(),
    decreases events.len() - i,
{
    if i < events.len() && !is_current(events, i, frame) {
        lemma_first_current_bounds(events, i + 1, frame);
    }
}

proof fn lemma_first_past_bounds(events: Seq<Event>, time: Double, i: int)
    requires
        0 <= i <= events.len(),
    ensures
        i <= first_past(events, time, i) <= events.len(),
    decreases events.len() - i,
{
    if i < events.len() && !(events[i].at.time.rank() > time.rank()) {
        lemma_first_past_bounds(events, time, i + 1);
    }
}

/// The last event holds its value for ever; any other goes to the value and the time of the one behind it, the way
/// that one says, or, where a cancel cut a ramp, along that ramp to the cut.
pub proof fn law_an_event_aims_at_the_next(events: Seq<Event>, i: int)
    requires
        0 <= i < events.len(),
    ensures
        ({
            let a = AudioParam::aimed(events, i);
            let cut = i + 1 < events.len() && events[i + 1].kind == Kind::CancelValues && events[i + 1].saved is Some
                && events[i].kind != Kind::SetTarget;
            &&& a.from == events[i].value
            &&& a.from_at == events[i].at
            &&& i + 1 == events.len() ==> a.to == Some(events[i].value) && a.to_at is None && a.way is None
            &&& i + 1 < events.len() ==> a.to_at == Some(events[i + 1].at)
            &&& i + 1 < events.len() && !cut ==> a.to == Some(events[i + 1].value) && a.way == Some(events[i + 1].kind)
            &&& cut ==> a.way == Some(events[i + 1].saved->0.kind) && (events[i + 1].settled ==> a.to == Some(
                events[i + 1].value,
            )) && (!events[i + 1].settled ==> a.to is None)
        }),
{
}

/// An event's values end with its aim's frame or with what is to be filled, whichever is first.
pub proof fn law_values_end_with_their_aim(aim: Aim, end: int)
    ensures
        aim.to_at is None ==> AudioParam::until(aim, end) == end,
        aim.to_at is Some ==> AudioParam::until(aim, end) <= end && AudioParam::until(aim, end) <= aim.to_at->0.up && (
        AudioParam::until(aim, end) == end || AudioParam::until(aim, end) == aim.to_at->0.up),
{
}

/// What was scheduled for the past since the last render happens now; nothing else moves.
pub proof fn law_a_late_event_happens_now(events: Seq<Event>, at: Moment, i: int)
    requires
        0 <= i < events.len(),
    ensures
        ({
            let c = AudioParam::clamped(events, at);
            &&& c.len() == events.len()
            &&& !c[i].is_new
            &&& c[i] == (Event { at: c[i].at, is_new: false, ..events[i] })
            &&& !events[i].is_new ==> c[i].at == events[i].at
            &&& events[i].is_new ==> c[i].at.time.rank() >= at.time.rank() && (c[i].at == at || c[i].at == events[i].at)
            &&& events[i].at.time.rank() >= at.time.rank() ==> c[i].at == events[i].at
        }),
{
}

/// Dropping the past never drops the last event: its value is what the parameter has.
pub proof fn law_the_last_event_stays(events: Seq<Event>, count: int)
    requires
        events.len() > 0,
        0 <= count,
    ensures
        without_old(events, count).len() > 0,
        without_old(events, count).last() == events.last(),
{
}

} // verus!
