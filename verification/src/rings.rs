//! The rings commands and events cross on: wait-free single-producer, single-consumer queues of the
//! `rtrb` crate. What each end has offered or taken so far is its history; what the other end has done
//! meanwhile is not known here, so a push may find the ring full and a pop may find it empty.

use vstd::prelude::*;

use crate::api::{Event, TimedCommand, Unit};
use crate::session::SessionJob;

verus! {

/// The sending end of an `rtrb` ring.
#[verifier::external_type_specification]
#[verifier::external_body]
#[verifier::reject_recursive_types(T)]
pub struct ExProducer<T>(rtrb::Producer<T>);

/// The receiving end of an `rtrb` ring.
#[verifier::external_type_specification]
#[verifier::external_body]
#[verifier::reject_recursive_types(T)]
pub struct ExConsumer<T>(rtrb::Consumer<T>);

/// More entries than any of the engine's rings has; so many still fit any address space.
pub const RING_LIMIT: usize = 0x10_0000;

/// The events an end has offered to its ring so far, in order, each with whether the ring took it.
pub uninterp spec fn events_offered(p: rtrb::Producer<Event>) -> Seq<(Event, bool)>;

/// Which ring an end sends events into.
pub uninterp spec fn event_sink(p: rtrb::Producer<Event>) -> int;

/// Which ring an end takes events from.
pub uninterp spec fn event_source(c: rtrb::Consumer<Event>) -> int;

/// How many events its ring holds at once.
pub uninterp spec fn event_room(p: rtrb::Producer<Event>) -> nat;

/// Which ring an end sends commands into.
pub uninterp spec fn command_sink(p: rtrb::Producer<TimedCommand>) -> int;

/// Which ring an end takes commands from.
pub uninterp spec fn command_source(c: rtrb::Consumer<TimedCommand>) -> int;

/// How many commands its ring holds at once.
pub uninterp spec fn command_room(p: rtrb::Producer<TimedCommand>) -> nat;

/// What an end's looks at its ring gave so far, in order: the command each took off it, or `None` where the
/// ring was empty.
pub uninterp spec fn commands_polled(c: rtrb::Consumer<TimedCommand>) -> Seq<Option<TimedCommand>>;

/// What a ring took of what was offered to it.
pub open spec fn went<T>(offers: Seq<(T, bool)>) -> Seq<T>
    decreases offers.len(),
{
    if offers.len() == 0 {
        Seq::empty()
    } else if offers.last().1 {
        went(offers.drop_last()).push(offers.last().0)
    } else {
        went(offers.drop_last())
    }
}

/// One offer more.
pub proof fn lemma_went_push<T>(offers: Seq<(T, bool)>, x: T, took: bool)
    ensures
        went(offers.push((x, took))) == (if took {
            went(offers).push(x)
        } else {
            went(offers)
        }),
{
    assert(offers.push((x, took)).drop_last() =~= offers);
}

/// What came among what looks at a ring gave.
pub open spec fn came<T>(polls: Seq<Option<T>>) -> Seq<T>
    decreases polls.len(),
{
    if polls.len() == 0 {
        Seq::empty()
    } else {
        match polls.last() {
            Some(x) => came(polls.drop_last()).push(x),
            None => came(polls.drop_last()),
        }
    }
}

/// The looks were taken until one found the ring empty: every one before the last gave something.
pub open spec fn unbroken<T>(polls: Seq<Option<T>>) -> bool {
    forall|k: int| 0 <= k < polls.len() - 1 ==> (#[trigger] polls[k]) is Some
}

/// One look more.
pub proof fn lemma_came_push<T>(polls: Seq<Option<T>>, x: Option<T>)
    ensures
        came(polls.push(x)) == (match x {
            Some(y) => came(polls).push(y),
            None => came(polls),
        }),
{
    assert(polls.push(x).drop_last() =~= polls);
}

/// `rtrb::RingBuffer::new`: the two ends of one ring of `capacity` events, nothing offered yet.
#[verifier::external_body]
pub(crate) fn event_ring(capacity: usize) -> (ends: (rtrb::Producer<Event>, rtrb::Consumer<Event>))
    requires
        capacity <= RING_LIMIT,
    ensures
        events_offered(ends.0) == Seq::<(Event, bool)>::empty(),
        event_room(ends.0) == capacity,
        event_sink(ends.0) == event_source(ends.1),
{
    rtrb::RingBuffer::new(capacity)
}

/// `rtrb::Producer::push`: the event goes on the ring, or comes back when the ring is full. It never is
/// before as many events were sent as it holds.
#[verifier::external_body]
pub(crate) fn send_event(p: &mut rtrb::Producer<Event>, event: Event) -> (sent: bool)
    ensures
        event_room(*final(p)) == event_room(*old(p)),
        event_sink(*final(p)) == event_sink(*old(p)),
        events_offered(*final(p)) == events_offered(*old(p)).push((event, sent)),
        went(events_offered(*old(p))).len() < event_room(*old(p)) ==> sent,
{
    p.push(event).is_ok()
}

/// `rtrb::RingBuffer::new`: the two ends of one ring of `capacity` commands, no look taken yet.
#[verifier::external_body]
pub(crate) fn command_ring(capacity: usize) -> (ends: (
    rtrb::Producer<TimedCommand>,
    rtrb::Consumer<TimedCommand>,
))
    requires
        capacity <= RING_LIMIT,
    ensures
        commands_polled(ends.1) == Seq::<Option<TimedCommand>>::empty(),
        command_room(ends.0) == capacity,
        command_sink(ends.0) == command_source(ends.1),
{
    rtrb::RingBuffer::new(capacity)
}

/// `rtrb::Consumer::pop`: the oldest command on the ring, `None` while it is empty. Which one that is is
/// the other end's history, on its own thread, and is not stated.
#[verifier::external_body]
pub(crate) fn take_command(c: &mut rtrb::Consumer<TimedCommand>) -> (command: Option<TimedCommand>)
    ensures
        commands_polled(*final(c)) == commands_polled(*old(c)).push(command),
        command_source(*final(c)) == command_source(*old(c)),
{
    c.pop().ok()
}

/// What crosses between the host and the engine besides commands and events.
pub enum Parcel {
    /// A unit for a plugin slot.
    Install(Unit),
    /// The slot's unit is wanted back.
    Remove,
    /// A unit handed back.
    Back(Unit),
    /// A session job, on its way in or back with its result.
    Session(SessionJob),
}

/// The parcels an end has offered to its ring so far, in order, each with whether the ring took it.
pub uninterp spec fn parcels_offered(p: rtrb::Producer<Parcel>) -> Seq<(Parcel, bool)>;

/// The parcels an end has put on its ring so far, in order.
pub open spec fn parcels_sent(p: rtrb::Producer<Parcel>) -> Seq<Parcel> {
    went(parcels_offered(p))
}

/// Which ring an end sends parcels into.
pub uninterp spec fn parcel_sink(p: rtrb::Producer<Parcel>) -> int;

/// Which ring an end takes parcels from.
pub uninterp spec fn parcel_source(c: rtrb::Consumer<Parcel>) -> int;

/// How many parcels its ring is known to have room for.
pub uninterp spec fn parcel_room(p: rtrb::Producer<Parcel>) -> nat;

/// What an end's looks at its ring gave so far, in order: the parcel each took off it, or `None` where the
/// ring was empty.
pub uninterp spec fn parcels_polled(c: rtrb::Consumer<Parcel>) -> Seq<Option<Parcel>>;

/// The parcels an end has taken off its ring so far, in order.
pub open spec fn parcels_taken(c: rtrb::Consumer<Parcel>) -> Seq<Parcel> {
    came(parcels_polled(c))
}

/// What the last look at a ring gave.
pub open spec fn latest(c: rtrb::Consumer<Parcel>) -> Option<Parcel> {
    parcels_polled(c).last()
}

/// An end has looked at its ring, the same one, once more.
pub open spec fn looked(before: rtrb::Consumer<Parcel>, after: rtrb::Consumer<Parcel>) -> bool {
    &&& parcels_polled(after) == parcels_polled(before).push(latest(after))
    &&& parcel_source(after) == parcel_source(before)
}

/// `rtrb::RingBuffer::new`: the two ends of one ring of `capacity` parcels, nothing offered and no look taken
/// yet.
#[verifier::external_body]
pub(crate) fn parcel_ring(capacity: usize) -> (ends: (rtrb::Producer<Parcel>, rtrb::Consumer<Parcel>))
    requires
        capacity <= RING_LIMIT,
    ensures
        parcels_offered(ends.0) == Seq::<(Parcel, bool)>::empty(),
        parcel_room(ends.0) == capacity,
        parcels_polled(ends.1) == Seq::<Option<Parcel>>::empty(),
        parcel_sink(ends.0) == parcel_source(ends.1),
{
    rtrb::RingBuffer::new(capacity)
}

/// `rtrb::Producer::push`: the parcel goes on the ring, or comes back when the ring is full. It goes
/// where the ring was known to have room.
#[verifier::external_body]
fn offer_parcel(p: &mut rtrb::Producer<Parcel>, parcel: Parcel) -> (back: Option<Parcel>)
    ensures
        parcel_room(*old(p)) > 0 ==> back is None && parcel_room(*final(p)) == parcel_room(*old(p)) - 1,
        parcels_offered(*final(p)) == parcels_offered(*old(p)).push((parcel, back is None)),
        parcel_sink(*final(p)) == parcel_sink(*old(p)),
        back matches Some(x) ==> x == parcel,
{
    match p.push(parcel) {
        Ok(()) => None,
        Err(rtrb::PushError::Full(parcel)) => Some(parcel),
    }
}

/// Offer a parcel to the ring; it comes back when the ring is full.
pub(crate) fn send_parcel(p: &mut rtrb::Producer<Parcel>, parcel: Parcel) -> (back: Option<Parcel>)
    ensures
        parcel_room(*old(p)) > 0 ==> back is None && parcel_room(*final(p)) == parcel_room(*old(p)) - 1,
        parcels_offered(*final(p)) == parcels_offered(*old(p)).push((parcel, back is None)),
        parcel_sink(*final(p)) == parcel_sink(*old(p)),
        back is None ==> parcels_sent(*final(p)) == parcels_sent(*old(p)).push(parcel),
        back matches Some(x) ==> x == parcel && parcels_sent(*final(p)) == parcels_sent(*old(p)),
{
    let ghost offers = parcels_offered(*p);
    let ghost offered = parcel;
    let back = offer_parcel(p, parcel);
    proof {
        lemma_went_push(offers, offered, back is None);
    }
    back
}

/// `rtrb::Producer::slots`: how many parcels the ring has room for; the other end only makes more.
#[verifier::external_body]
pub(crate) fn parcel_slots(p: &mut rtrb::Producer<Parcel>) -> (n: usize)
    ensures
        parcel_room(*final(p)) == n,
        parcel_sink(*final(p)) == parcel_sink(*old(p)),
        parcels_offered(*final(p)) == parcels_offered(*old(p)),
{
    p.slots()
}

/// `rtrb::Consumer::pop`: the oldest parcel on the ring, `None` while it is empty. Which one that is is
/// the other end's history, on its own thread, and is not stated.
#[verifier::external_body]
fn poll_parcel(c: &mut rtrb::Consumer<Parcel>) -> (parcel: Option<Parcel>)
    ensures
        parcels_polled(*final(c)) == parcels_polled(*old(c)).push(parcel),
        parcel_source(*final(c)) == parcel_source(*old(c)),
{
    c.pop().ok()
}

/// The oldest parcel on the ring, `None` while it is empty.
pub(crate) fn take_parcel(c: &mut rtrb::Consumer<Parcel>) -> (parcel: Option<Parcel>)
    ensures
        looked(*old(c), *final(c)),
        parcel == latest(*final(c)),
        parcels_taken(*final(c)) == (match parcel {
            Some(x) => parcels_taken(*old(c)).push(x),
            None => parcels_taken(*old(c)),
        }),
{
    let parcel = poll_parcel(c);
    proof {
        lemma_came_push(parcels_polled(*old(c)), parcel);
    }
    parcel
}

/// The event ring's sending end. A full ring drops the event and counts it: the audio never waits.
pub struct Feed {
    tx: rtrb::Producer<Event>,
    dropped: u64,
}

impl Feed {
    /// Every event it has offered to its ring, with whether the ring took it.
    pub closed spec fn offers(&self) -> Seq<(Event, bool)> {
        events_offered(self.tx)
    }

    /// Every event it was given, sent or dropped.
    pub open spec fn said(&self) -> Seq<Event> {
        self.offers().map_values(|o: (Event, bool)| o.0)
    }

    pub open spec fn sent(&self) -> Seq<Event> {
        went(self.offers())
    }

    pub closed spec fn room(&self) -> nat {
        event_room(self.tx)
    }

    /// The ring it sends into.
    pub closed spec fn sink(&self) -> int {
        event_sink(self.tx)
    }

    pub closed spec fn lost(&self) -> u64 {
        self.dropped
    }

    /// Every event given was sent or counted (the count starts over past 64 bits).
    pub closed spec fn wf(&self) -> bool {
        &&& self.sent().len() <= self.said().len()
        &&& self.dropped as int == (self.said().len() - self.sent().len()) % 0x1_0000_0000_0000_0000
    }

    /// Every event given was sent or counted as dropped (the count starts over past 64 bits).
    pub proof fn law_every_event_is_sent_or_counted(&self)
        requires
            self.wf(),
        ensures
            self.sent().len() <= self.said().len(),
            self.lost() as int == (self.said().len() - self.sent().len()) % 0x1_0000_0000_0000_0000,
    {
    }

    /// A feed over a ring of `capacity` events, and the end that reads it.
    pub fn new(capacity: usize) -> (ends: (Feed, rtrb::Consumer<Event>))
        requires
            capacity <= RING_LIMIT,
        ensures
            ends.0.wf(),
            ends.0.offers() == Seq::<(Event, bool)>::empty(),
            ends.0.said() == Seq::<Event>::empty(),
            ends.0.sent() == Seq::<Event>::empty(),
            ends.0.room() == capacity,
            ends.0.sink() == event_source(ends.1),
            ends.0.lost() == 0,
    {
        let (tx, rx) = event_ring(capacity);
        let feed = Feed { tx, dropped: 0 };
        assert(feed.said() =~= Seq::<Event>::empty());
        (feed, rx)
    }

    /// Offer an event to the ring; one that it does not take is dropped and counted.
    pub fn push(&mut self, event: Event)
        requires
            old(self).wf(),
        ensures
            final(self).wf(),
            final(self).said() == old(self).said().push(event),
            final(self).room() == old(self).room(),
            final(self).sink() == old(self).sink(),
            ({
                let took = final(self).offers().last().1;
                &&& final(self).offers() == old(self).offers().push((event, took))
                &&& final(self).sent() == (if took {
                    old(self).sent().push(event)
                } else {
                    old(self).sent()
                })
                &&& final(self).lost() == (if took {
                    old(self).lost()
                } else {
                    old(self).lost().wrapping_add(1)
                })
                &&& old(self).sent().len() < old(self).room() ==> took
            }),
    {
        let took: bool = send_event(&mut self.tx, event);
        if !took {
            self.dropped = self.dropped.wrapping_add(1);
        }
        proof {
            lemma_went_push(old(self).offers(), event, took);
            assert(self.said() =~= old(self).said().push(event));
        }
    }

    pub fn dropped(&self) -> (n: u64)
        ensures
            n == self.lost(),
    {
        self.dropped
    }
}

} // verus!
