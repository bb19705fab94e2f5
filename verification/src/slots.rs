//! The plugin slots inside the callback: the units the host installs and takes back through each slot's
//! [`SlotPort`], the notes a slot holds, the live flag and gain, and where a slot's output goes. The
//! processors themselves are the host's, each under its unit's id.
//!
//! A slot holding an effect (or nothing) passes the device input on while it is live and gets silence
//! otherwise; its output is the wet signal, which the engine hears after the limiter and records at the
//! take's alignment. A slot holding an instrument plays the notes while it is the note target; its
//! output joins the master bus and goes to the record tap delayed like a built-in instrument's, less the
//! plugin's own latency.
//!
//! Lifecycle never stops the audio. The host builds and activates a unit off the audio thread and
//! installs it: the unit crossfades in from bypass. A removal first releases the notes the slot holds,
//! crossfades to bypass, stops the unit and hands it back on the port's return ring; a full return ring
//! parks it until there is room. Nothing here drops a unit. Installing into an occupied slot is a
//! protocol error: the new unit goes straight back, counted.

use vstd::prelude::*;

use crate::api::{SlotEvent, SlotEventKind, SlotKind, Unit, SLOT_COUNT};
use crate::float::{Single, SINGLE_ONE};
use crate::grid;
use crate::grid::Frame;
use crate::rings;
use crate::rings::{parcel_ring, send_parcel, take_parcel, Parcel};

verus! {

/// Note events one slot queues between two render calls; more are dropped and counted.
pub const MAX_SLOT_EVENTS: usize = 256;

/// The keys of a keyboard.
pub const KEY_COUNT: usize = 128;

pub const MSG_CAPACITY: usize = 4;

pub const RETURN_CAPACITY: usize = 4;

/// Messages a slot takes at one block start; more wait on the ring for the next.
pub const MAX_MESSAGES: usize = 64;

// ── The host's end ─────────────────────────────────────────────────────────────────────────────────

/// The host's end of one slot. Not real-time: the host blocks on it, the engine never does.
pub struct SlotPort {
    pub tx: rtrb::Producer<Parcel>,
    pub rx: rtrb::Consumer<Parcel>,
}

impl SlotPort {
    /// What it sends reaches the slot, and what the slot hands back reaches it.
    pub open spec fn joined(&self, slot: &Slot) -> bool {
        &&& rings::parcel_sink(self.tx) == rings::parcel_source(slot.rx)
        &&& rings::parcel_sink(slot.tx) == rings::parcel_source(self.rx)
    }

    /// Its ends are of the rings they were of.
    pub open spec fn same_rings(&self, before: &SlotPort) -> bool {
        &&& rings::parcel_sink(self.tx) == rings::parcel_sink(before.tx)
        &&& rings::parcel_source(self.rx) == rings::parcel_source(before.rx)
    }

    /// Nothing was sent yet and nothing came back; the ring to the slot has all its room.
    pub open spec fn fresh(&self) -> bool {
        &&& rings::parcels_offered(self.tx) == Seq::<(Parcel, bool)>::empty()
        &&& rings::parcel_room(self.tx) == MSG_CAPACITY
        &&& rings::parcels_polled(self.rx) == Seq::<Option<Parcel>>::empty()
    }

    /// Hand an activated unit to the slot; it crossfades in from the next block. Gives the unit back
    /// when the message ring is full (the engine is not rendering and has not been serviced).
    pub fn install(&mut self, unit: Unit) -> (r: Result<(), Unit>)
        ensures
            final(self).rx == old(self).rx,
            final(self).same_rings(old(self)),
            rings::parcels_offered(final(self).tx) == rings::parcels_offered(old(self).tx).push(
                (Parcel::Install(unit), r is Ok),
            ),
            r matches Err(u) ==> u == unit,
            rings::parcel_room(old(self).tx) > 0 ==> r is Ok && rings::parcel_room(final(self).tx)
                == rings::parcel_room(old(self).tx) - 1,
    {
        match send_parcel(&mut self.tx, Parcel::Install(unit)) {
            None => Ok(()),
            Some(_) => Err(unit),
        }
    }

    /// Ask for the slot's unit back: it releases its notes, crossfades to bypass, stops and arrives on
    /// [`SlotPort::returned`]. Nothing comes back from an empty slot. False when the ring is full.
    pub fn remove(&mut self) -> (asked: bool)
        ensures
            final(self).rx == old(self).rx,
            final(self).same_rings(old(self)),
            rings::parcels_offered(final(self).tx) == rings::parcels_offered(old(self).tx).push(
                (Parcel::Remove, asked),
            ),
            rings::parcel_room(old(self).tx) > 0 ==> asked && rings::parcel_room(final(self).tx)
                == rings::parcel_room(old(self).tx) - 1,
    {
        send_parcel(&mut self.tx, Parcel::Remove).is_none()
    }

    /// A unit the engine handed back: removed, evicted or refused.
    pub fn returned(&mut self) -> (unit: Option<Unit>)
        ensures
            final(self).tx == old(self).tx,
            rings::looked(old(self).rx, final(self).rx),
            unit == (match rings::latest(final(self).rx) {
                Some(Parcel::Back(u)) => Some(u),
                _ => None,
            }),
    {
        match take_parcel(&mut self.rx) {
            Some(Parcel::Back(unit)) => Some(unit),
            _ => None,
        }
    }
}

// ── Notes ──────────────────────────────────────────────────────────────────────────────────────────

/// A slot's queue of notes, and how many found it full.
pub struct Queue {
    pub events: Seq<SlotEvent>,
    pub dropped: u64,
}

impl Queue {
    pub open spec fn put(self, e: SlotEvent) -> Queue {
        if self.events.len() < MAX_SLOT_EVENTS {
            Queue { events: self.events.push(e), ..self }
        } else {
            Queue { dropped: self.dropped.wrapping_add(1), ..self }
        }
    }

    /// The held keys below `k` released, lowest first.
    pub open spec fn released(self, held: Seq<bool>, offset: u32, k: int) -> Queue
        decreases k,
    {
        if k <= 0 {
            self
        } else {
            let q = self.released(held, offset, k - 1);
            if held[k - 1] {
                q.put(SlotEvent { offset, kind: SlotEventKind::NoteOff { key: (k - 1) as u8 } })
            } else {
                q
            }
        }
    }
}

pub open spec fn no_keys() -> Seq<bool> {
    Seq::new(KEY_COUNT as nat, |k: int| false)
}

// ── Units ──────────────────────────────────────────────────────────────────────────────────────────

/// How often a unit was installed by these parcels.
pub open spec fn installs(parcels: Seq<Parcel>, u: Unit) -> nat
    decreases parcels.len(),
{
    if parcels.len() == 0 {
        0
    } else {
        installs(parcels.drop_last(), u) + (if parcels.last() == Parcel::Install(u) {
            1nat
        } else {
            0nat
        })
    }
}

/// How often a unit was handed back by these parcels.
pub open spec fn backs(parcels: Seq<Parcel>, u: Unit) -> nat
    decreases parcels.len(),
{
    if parcels.len() == 0 {
        0
    } else {
        backs(parcels.drop_last(), u) + (if parcels.last() == Parcel::Back(u) {
            1nat
        } else {
            0nat
        })
    }
}

pub open spec fn times(units: Seq<Unit>, u: Unit) -> nat
    decreases units.len(),
{
    if units.len() == 0 {
        0
    } else {
        times(units.drop_last(), u) + (if units.last() == u {
            1nat
        } else {
            0nat
        })
    }
}

pub open spec fn once(held: Option<Unit>, u: Unit) -> nat {
    if held == Some(u) {
        1
    } else {
        0
    }
}

/// What the host's processors are to do, in order.
#[derive(Clone, Copy, Debug, PartialEq, Eq, Structural)]
pub enum SlotChange {
    /// The unit is in the slot: at once where `engaged`, else crossfading in.
    Installed { slot: u8, unit: Unit, engaged: bool },
    /// The slot's unit is on its way out: at once, or crossfading where `fade`.
    Leaving { slot: u8, fade: bool },
    /// The unit is stopped.
    Stop { slot: u8, unit: Unit },
}

/// What a slot's messages turn on: the slot, what it offered to its return ring and how many more that ring
/// is known to have room for, the counters, and what the processors are to do.
pub struct Desk {
    pub unit: Option<Unit>,
    pub kind: SlotKind,
    pub latency: Frame,
    pub removing: bool,
    pub held: Seq<bool>,
    pub queue: Queue,
    pub parked: Seq<Option<Unit>>,
    /// What was offered to the return ring, and whether it took it.
    pub offers: Seq<(Parcel, bool)>,
    pub room: nat,
    /// Units given up because nothing read the port.
    pub lost: Seq<Unit>,
    pub live: bool,
    pub gain: Single,
    pub errors: u64,
    pub changes: Seq<SlotChange>,
}

impl Desk {
    /// A unit handed back: offered to the return ring, which takes it where it was known to have room; from
    /// a full ring into the first free place to park; with none free it is given up and counted.
    pub open spec fn parks(self, unit: Unit, after: Desk) -> bool {
        let took = after.offers.last().1;
        let offered = self.offered(unit, after);
        &&& self.room > 0 ==> took && after.room == self.room - 1
        &&& after == (if took {
            offered
        } else if self.parked[0] is None {
            Desk { parked: self.parked.update(0, Some(unit)), ..offered }
        } else if self.parked[1] is None {
            Desk { parked: self.parked.update(1, Some(unit)), ..offered }
        } else {
            Desk { errors: self.errors.wrapping_add(1), lost: self.lost.push(unit), ..offered }
        })
    }

    /// A unit was offered to the return ring, as `after` says it went.
    pub open spec fn offered(self, unit: Unit, after: Desk) -> Desk {
        Desk { offers: self.offers.push((Parcel::Back(unit), after.offers.last().1)), room: after.room, ..self }
    }

    /// The unit parked at `k`, if one is, offered to the return ring; out of its place where the ring took it.
    pub open spec fn tried(self, k: int, after: Desk) -> bool {
        match self.parked[k] {
            None => after == self,
            Some(unit) => {
                let took = after.offers.last().1;
                &&& self.room > 0 ==> took && after.room == self.room - 1
                &&& after == (Desk {
                    parked: if took {
                        self.parked.update(k, None)
                    } else {
                        self.parked
                    },
                    ..self.offered(unit, after)
                })
            },
        }
    }

    /// The parked units handed back, oldest first, until the return ring did not take one.
    pub open spec fn unparks(self, after: Desk) -> bool {
        exists|half: Desk| #[trigger]
            self.tried(0, half) && (if half.parked[0] is Some {
                after == half
            } else {
                half.tried(1, after)
            })
    }

    /// One message: a unit to install, or the slot's unit wanted back. A unit for an occupied slot goes
    /// straight back, counted.
    pub open spec fn met(self, slot: u8, engaged: bool, fade: bool, p: Parcel, after: Desk) -> bool {
        match p {
            Parcel::Install(unit) => if self.unit is Some {
                (Desk { errors: self.errors.wrapping_add(1), ..self }).parks(unit, after)
            } else {
                after == (Desk {
                    unit: Some(unit),
                    kind: unit.kind,
                    latency: grid::max_int(unit.latency as int, 0) as Frame,
                    removing: false,
                    held: no_keys(),
                    queue: Queue { events: Seq::empty(), dropped: self.queue.dropped },
                    changes: self.changes.push(SlotChange::Installed { slot, unit, engaged }),
                    ..self
                })
            },
            Parcel::Remove => after == (if self.unit is Some {
                Desk {
                    removing: true,
                    held: no_keys(),
                    queue: self.queue.released(self.held, 0, KEY_COUNT as int),
                    changes: self.changes.push(SlotChange::Leaving { slot, fade }),
                    ..self
                }
            } else {
                self
            }),
            _ => after == self,
        }
    }

    /// The slot's unit out of it.
    pub open spec fn emptied(self, slot: u8, after: Desk) -> bool {
        let out = Desk {
            unit: None,
            kind: SlotKind::Effect,
            latency: 0,
            removing: false,
            held: no_keys(),
            queue: Queue { events: Seq::empty(), dropped: self.queue.dropped },
            changes: match self.unit {
                Some(unit) => self.changes.push(SlotChange::Stop { slot, unit }),
                None => self.changes,
            },
            ..self
        };
        match self.unit {
            Some(unit) => out.parks(unit, after),
            None => after == out,
        }
    }

    /// The slot's unit out of it, where it holds one, and the parked units handed back.
    pub open spec fn cleared(self, slot: u8, after: Desk) -> bool {
        exists|mid: Desk| #[trigger]
            mid.unparks(after) && (if self.unit is Some {
                self.emptied(slot, mid)
            } else {
                mid == self
            })
    }
}

/// `trace` goes through the messages one by one.
pub open spec fn follows(trace: Seq<Desk>, slot: u8, engaged: bool, fade: bool, msgs: Seq<Parcel>) -> bool {
    &&& trace.len() == msgs.len() + 1
    &&& forall|k: int| 0 <= k < msgs.len() ==> (#[trigger] trace[k]).met(slot, engaged, fade, msgs[k], trace[k + 1])
}

/// The messages led from one desk to another.
pub open spec fn led(before: Desk, slot: u8, engaged: bool, fade: bool, msgs: Seq<Parcel>, after: Desk) -> bool {
    exists|trace: Seq<Desk>| #[trigger]
        follows(trace, slot, engaged, fade, msgs) && trace[0] == before && trace.last() == after
}

/// The engine's end of one slot.
pub struct Slot {
    pub rx: rtrb::Consumer<Parcel>,
    pub tx: rtrb::Producer<Parcel>,
    pub unit: Option<Unit>,
    /// The installed unit's kind and latency (read once at install).
    pub kind: SlotKind,
    pub latency: Frame,
    /// The unit leaves once the crossfade reaches bypass.
    pub removing: bool,
    /// Units stopped and waiting for room on the return ring, oldest first.
    pub parked: [Option<Unit>; 2],
    pub live: bool,
    pub gain: Single,
    /// The notes this slot's unit holds, by key.
    pub held: Vec<bool>,
    pub events: Vec<SlotEvent>,
    /// Units given up because nothing read the port.
    pub lost: Ghost<Seq<Unit>>,
}

impl Slot {
    pub open spec fn taken(&self) -> Seq<Parcel> {
        rings::parcels_taken(self.rx)
    }

    pub open spec fn sent(&self) -> Seq<Parcel> {
        rings::parcels_sent(self.tx)
    }

    /// How often the slot has a unit in hand.
    pub open spec fn in_hand(&self, u: Unit) -> nat {
        once(self.unit, u) + once(self.parked@[0], u) + once(self.parked@[1], u)
    }

    /// Every unit that came in is in the slot, parked, back with the host, or given up and counted.
    pub open spec fn accounted(&self) -> bool {
        forall|u: Unit| #[trigger] self.owes(u) == 0
    }

    /// How often a unit that came in is nowhere.
    pub open spec fn owes(&self, u: Unit) -> int {
        installs(self.taken(), u) - self.in_hand(u) - backs(self.sent(), u) - times(self.lost@, u)
    }

    /// The accounts do not turn on the notes.
    proof fn lemma_same_accounts(&self, before: &Slot)
        requires
            before.accounted(),
            self.rx == before.rx,
            self.tx == before.tx,
            self.unit == before.unit,
            self.parked == before.parked,
            self.lost == before.lost,
        ensures
            self.accounted(),
    {
        assert forall|u: Unit| #[trigger] self.owes(u) == 0 by {
            assert(before.owes(u) == 0);
        }
    }

    pub open spec fn wf(&self) -> bool {
        &&& self.held@.len() == KEY_COUNT
        &&& self.events@.len() <= MAX_SLOT_EVENTS
        &&& self.latency >= 0
        &&& self.unit is None ==> !self.removing
        &&& self.accounted()
    }

    pub open spec fn desk(&self, dropped: u64, errors: u64, changes: Seq<SlotChange>) -> Desk {
        Desk {
            unit: self.unit,
            kind: self.kind,
            latency: self.latency,
            removing: self.removing,
            held: self.held@,
            queue: self.queue_of(dropped),
            parked: self.parked@,
            offers: rings::parcels_offered(self.tx),
            room: rings::parcel_room(self.tx),
            lost: self.lost@,
            live: self.live,
            gain: self.gain,
            errors,
            changes,
        }
    }

    pub open spec fn queue_of(&self, dropped: u64) -> Queue {
        Queue { events: self.events@, dropped }
    }

    /// Nothing but its notes is another.
    pub open spec fn same_unit(&self, before: &Slot) -> bool {
        &&& self.rx == before.rx
        &&& self.tx == before.tx
        &&& self.unit == before.unit
        &&& self.kind == before.kind
        &&& self.latency == before.latency
        &&& self.removing == before.removing
        &&& self.parked == before.parked
        &&& self.live == before.live
        &&& self.gain == before.gain
        &&& self.lost == before.lost
    }

    /// Nothing but its rings and parked units is another.
    pub open spec fn same_notes(&self, before: &Slot) -> bool {
        &&& self.kind == before.kind
        &&& self.latency == before.latency
        &&& self.live == before.live
        &&& self.gain == before.gain
        &&& self.held@ == before.held@
        &&& self.events@ == before.events@
        &&& self.removing == before.removing
    }

    /// An empty slot whose ring back has room for `room` parcels: nothing came, nothing went back.
    pub open spec fn fresh(&self, room: nat) -> bool {
        &&& rings::parcels_polled(self.rx) == Seq::<Option<Parcel>>::empty()
        &&& self.desk(0, 0, Seq::empty()) == (Desk {
            unit: None,
            kind: SlotKind::Effect,
            latency: 0,
            removing: false,
            held: no_keys(),
            queue: Queue { events: Seq::empty(), dropped: 0 },
            parked: seq![None, None],
            offers: Seq::empty(),
            room,
            lost: Seq::empty(),
            live: false,
            gain: Single { bits: SINGLE_ONE },
            errors: 0,
            changes: Seq::empty(),
        })
    }

    pub fn new(rx: rtrb::Consumer<Parcel>, tx: rtrb::Producer<Parcel>) -> (s: Slot)
        requires
            rings::parcels_polled(rx) == Seq::<Option<Parcel>>::empty(),
            rings::parcels_offered(tx) == Seq::<(Parcel, bool)>::empty(),
        ensures
            s.wf(),
            s.fresh(rings::parcel_room(tx)),
            s.rx == rx,
            s.tx == tx,
    {
        let held = clear_keys();
        let parked: [Option<Unit>; 2] = [None, None];
        let s = Slot {
            rx,
            tx,
            unit: None,
            kind: SlotKind::Effect,
            latency: 0,
            removing: false,
            parked,
            live: false,
            gain: Single { bits: SINGLE_ONE },
            held,
            events: Vec::with_capacity(MAX_SLOT_EVENTS),
            lost: Ghost(Seq::empty()),
        };
        assert(s.parked@ =~= seq![None::<Unit>, None::<Unit>]);
        assert(s.events@ =~= Seq::empty());
        s
    }

    pub open spec fn hears_input(&self) -> bool {
        self.live && !(self.unit is Some && self.kind == SlotKind::Instrument)
    }

    /// It passes the device input on.
    pub fn takes_input(&self) -> (r: bool)
        ensures
            r == self.hears_input(),
    {
        self.live && !(self.unit.is_some() && self.kind == SlotKind::Instrument)
    }

    /// It holds an instrument: its output joins the master bus.
    pub fn instrument(&self) -> (r: bool)
        ensures
            r == (self.unit is Some && self.kind == SlotKind::Instrument),
    {
        self.unit.is_some() && self.kind == SlotKind::Instrument
    }

    /// Hand a unit back: on the return ring, or parked while it is full. With no room anywhere it is
    /// given up and counted rather than dropped: a drop frees memory and calls into the plugin.
    pub fn park(&mut self, unit: Unit, errors: &mut u64)
        requires
            old(self).held@.len() == KEY_COUNT,
            old(self).events@.len() <= MAX_SLOT_EVENTS,
            old(self).latency >= 0,
            forall|u: Unit| #[trigger] old(self).owes(u) == once(Some(unit), u),
        ensures
            final(self).same_notes(old(self)),
            final(self).unit == old(self).unit,
            final(self).rx == old(self).rx,
            final(self).accounted(),
            forall|dropped: u64, changes: Seq<SlotChange>|
                old(self).desk(dropped, *old(errors), changes).parks(
                    unit,
                    #[trigger] final(self).desk(dropped, *final(errors), changes),
                ),
    {
        proof {
            lemma_backs_push(self.sent(), Parcel::Back(unit));
        }
        if send_parcel(&mut self.tx, Parcel::Back(unit)).is_none() {
            proof {
                self.lemma_parked(old(self), unit);
            }
            return;
        }
        if self.parked[0].is_none() {
            self.parked[0] = Some(unit);
        } else if self.parked[1].is_none() {
            self.parked[1] = Some(unit);
        } else {
            *errors = errors.wrapping_add(1);
            proof {
                lemma_times_push(self.lost@, unit);
                self.lost@ = self.lost@.push(unit);
            }
        }
        proof {
            self.lemma_parked(old(self), unit);
        }
    }

    /// A unit out of the accounts is back in them.
    proof fn lemma_parked(&self, before: &Slot, unit: Unit)
        requires
            forall|u: Unit| #[trigger] before.owes(u) == once(Some(unit), u),
            self.rx == before.rx,
            self.unit == before.unit,
            ({
                ||| self.sent() == before.sent().push(Parcel::Back(unit)) && self.parked == before.parked
                    && self.lost == before.lost
                ||| self.sent() == before.sent() && before.parked@[0] is None && self.parked@
                    == before.parked@.update(0, Some(unit)) && self.lost == before.lost
                ||| self.sent() == before.sent() && before.parked@[1] is None && self.parked@
                    == before.parked@.update(1, Some(unit)) && self.lost == before.lost
                ||| self.sent() == before.sent() && self.parked == before.parked && self.lost@
                    == before.lost@.push(unit)
            }),
        ensures
            self.accounted(),
    {
        lemma_backs_push(before.sent(), Parcel::Back(unit));
        lemma_times_push(before.lost@, unit);
        assert forall|u: Unit| #[trigger] self.owes(u) == 0 by {
            assert(before.owes(u) == once(Some(unit), u));
        }
    }

    /// A parked unit handed back.
    proof fn lemma_unparked(&self, before: &Slot, k: int)
        requires
            before.accounted(),
            0 <= k < 2,
            before.parked@[k] is Some,
            self.rx == before.rx,
            self.unit == before.unit,
            self.lost == before.lost,
            self.sent() == before.sent().push(Parcel::Back(before.parked@[k]->0)),
            self.parked@ == before.parked@.update(k, None),
        ensures
            self.accounted(),
    {
        lemma_backs_push(before.sent(), Parcel::Back(before.parked@[k]->0));
        assert forall|u: Unit| #[trigger] self.owes(u) == 0 by {
            assert(before.owes(u) == 0);
        }
    }

    /// Hand the parked units back as far as the return ring has room, oldest first.
    pub fn unpark(&mut self)
        requires
            old(self).wf(),
        ensures
            final(self).wf(),
            final(self).rx == old(self).rx,
            forall|dropped: u64, errors: u64, changes: Seq<SlotChange>|
                old(self).desk(dropped, errors, changes).unparks(
                    #[trigger] final(self).desk(dropped, errors, changes),
                ),
    {
        self.try_parked(0);
        let ghost half = *self;
        if self.parked[0].is_none() {
            self.try_parked(1);
        }
        proof {
            assert forall|dropped: u64, errors: u64, changes: Seq<SlotChange>|
                old(self).desk(dropped, errors, changes).unparks(#[trigger] self.desk(dropped, errors, changes)) by {
                assert(old(self).desk(dropped, errors, changes).tried(0, half.desk(dropped, errors, changes)));
                if half.parked@[0] is None {
                    assert(half.desk(dropped, errors, changes).tried(1, self.desk(dropped, errors, changes)));
                }
            }
        }
    }

    /// Offer the unit parked at `k`, if one is, to the return ring.
    fn try_parked(&mut self, k: usize)
        requires
            old(self).wf(),
            k < 2,
        ensures
            final(self).wf(),
            final(self).rx == old(self).rx,
            forall|dropped: u64, errors: u64, changes: Seq<SlotChange>|
                old(self).desk(dropped, errors, changes).tried(
                    k as int,
                    #[trigger] final(self).desk(dropped, errors, changes),
                ),
    {
        if let Some(unit) = self.parked[k] {
            if send_parcel(&mut self.tx, Parcel::Back(unit)).is_some() {
                proof {
                    self.lemma_kept(old(self));
                }
                return;
            }
            self.parked[k] = None;
            proof {
                self.lemma_unparked(old(self), k as int);
            }
        }
    }

    /// A push that came back changes no account.
    proof fn lemma_kept(&self, before: &Slot)
        requires
            before.accounted(),
            self.rx == before.rx,
            self.unit == before.unit,
            self.lost == before.lost,
            self.sent() == before.sent(),
            self.parked == before.parked,
        ensures
            self.accounted(),
    {
        assert forall|u: Unit| #[trigger] self.owes(u) == 0 by {
            assert(before.owes(u) == 0);
        }
    }

    fn queue(&mut self, kind: SlotEventKind, offset: u32, dropped: &mut u64)
        requires
            old(self).wf(),
        ensures
            final(self).wf(),
            final(self).same_unit(old(self)),
            final(self).held == old(self).held,
            final(self).queue_of(*final(dropped)) == old(self).queue_of(*old(dropped)).put(SlotEvent { offset, kind }),
    {
        if self.events.len() < MAX_SLOT_EVENTS {
            self.events.push(SlotEvent { offset, kind });
        } else {
            *dropped = dropped.wrapping_add(1);
        }
        proof {
            self.lemma_same_accounts(old(self));
        }
    }

    /// Release every key the unit holds.
    pub fn release_all(&mut self, offset: u32, dropped: &mut u64)
        requires
            old(self).wf(),
        ensures
            final(self).wf(),
            final(self).same_unit(old(self)),
            final(self).held@ == no_keys(),
            final(self).queue_of(*final(dropped)) == old(self).queue_of(*old(dropped)).released(
                old(self).held@,
                offset,
                KEY_COUNT as int,
            ),
    {
        let ghost held = self.held@;
        let ghost q = self.queue_of(*dropped);
        let mut key: usize = 0;
        while key < KEY_COUNT
            invariant
                key <= KEY_COUNT,
                self.wf(),
                self.same_unit(old(self)),
                self.held@ == held,
                held.len() == KEY_COUNT,
                self.queue_of(*dropped) == q.released(held, offset, key as int),
            decreases KEY_COUNT - key,
        {
            if self.held[key] {
                self.queue(SlotEventKind::NoteOff { key: key as u8 }, offset, dropped);
            }
            key = key + 1;
        }
        lift_keys(&mut self.held);
        proof {
            self.lemma_same_accounts(old(self));
        }
    }

    /// The slot's unit stopped and handed back; the slot as an empty one.
    pub fn finish_removal(&mut self, slot: u8, errors: &mut u64, changes: &mut Vec<SlotChange>)
        requires
            old(self).wf(),
        ensures
            final(self).wf(),
            final(self).rx == old(self).rx,
            forall|dropped: u64|
                old(self).desk(dropped, *old(errors), old(changes)@).emptied(
                    slot,
                    #[trigger] final(self).desk(dropped, *final(errors), final(changes)@),
                ),
    {
        if let Some(unit) = self.unit {
            self.unit = None;
            changes.push(SlotChange::Stop { slot, unit });
            proof {
                assert forall|u: Unit| #[trigger] self.owes(u) == once(Some(unit), u) by {
                    assert(old(self).owes(u) == 0);
                }
            }
            self.park(unit, errors);
        }
        let ghost half = *self;
        let ghost halfway = *errors;
        self.removing = false;
        self.kind = SlotKind::Effect;
        self.latency = 0;
        lift_keys(&mut self.held);
        self.events.clear();
        proof {
            self.lemma_same_accounts(&half);
            assert forall|dropped: u64|
                old(self).desk(dropped, *old(errors), old(changes)@).emptied(
                    slot,
                    #[trigger] self.desk(dropped, *errors, changes@),
                ) by {
                let parked = half.desk(dropped, halfway, changes@);
                assert(self.events@ =~= Seq::empty());
            }
        }
    }

    /// A message of the port: a unit to install, or the slot's unit wanted back. `engaged` installs
    /// without a crossfade, `fade` removes with one.
    pub fn take_message(
        &mut self,
        slot: u8,
        engaged: bool,
        fade: bool,
        dropped: &mut u64,
        errors: &mut u64,
        changes: &mut Vec<SlotChange>,
    ) -> (more: bool)
        requires
            old(self).wf(),
        ensures
            final(self).wf(),
            rings::looked(old(self).rx, final(self).rx),
            more == rings::latest(final(self).rx) is Some,
            match rings::latest(final(self).rx) {
                None => {
                    &&& final(self).taken() == old(self).taken()
                    &&& final(self).desk(*final(dropped), *final(errors), final(changes)@) == old(self).desk(
                        *old(dropped),
                        *old(errors),
                        old(changes)@,
                    )
                },
                Some(p) => {
                    &&& final(self).taken() == old(self).taken().push(p)
                    &&& old(self).desk(*old(dropped), *old(errors), old(changes)@).met(
                        slot,
                        engaged,
                        fade,
                        p,
                        final(self).desk(*final(dropped), *final(errors), final(changes)@),
                    )
                },
            },
    {
        match take_parcel(&mut self.rx) {
            None => {
                proof {
                    self.lemma_took(old(self), None);
                }
                false
            },
            Some(p) => {
                let ghost parcel = p;
                proof {
                    self.lemma_took(old(self), Some(parcel));
                    assert(self.taken() == old(self).taken().push(parcel));
                }
                match p {
                    Parcel::Install(unit) => {
                        if self.unit.is_some() {
                            *errors = errors.wrapping_add(1);
                            self.park(unit, errors);
                        } else {
                            let ghost half = *self;
                            self.kind = unit.kind;
                            self.latency = if unit.latency > 0 {
                                unit.latency
                            } else {
                                0
                            };
                            lift_keys(&mut self.held);
                            self.events.clear();
                            self.removing = false;
                            self.unit = Some(unit);
                            changes.push(SlotChange::Installed { slot, unit, engaged });
                            proof {
                                assert forall|u: Unit| #[trigger] self.owes(u) == 0 by {
                                    assert(half.owes(u) == once(Some(unit), u));
                                }
                            }
                        }
                    },
                    Parcel::Remove => {
                        if self.unit.is_some() {
                            self.release_all(0, dropped);
                            let ghost half = *self;
                            self.removing = true;
                            changes.push(SlotChange::Leaving { slot, fade });
                            proof {
                                self.lemma_same_accounts(&half);
                            }
                        }
                    },
                    Parcel::Back(_) => {},
                    Parcel::Session(_) => {},
                }
                true
            },
        }
    }

    /// A parcel taken: an install brings its unit into the accounts.
    proof fn lemma_took(&self, before: &Slot, p: Option<Parcel>)
        requires
            before.accounted(),
            self.tx == before.tx,
            self.unit == before.unit,
            self.parked == before.parked,
            self.lost == before.lost,
            self.taken() == (match p {
                Some(x) => before.taken().push(x),
                None => before.taken(),
            }),
        ensures
            p matches Some(Parcel::Install(unit)) ==> forall|u: Unit| #[trigger] self.owes(u) == once(Some(unit), u),
            !(p matches Some(Parcel::Install(_))) ==> self.accounted(),
    {
        if let Some(x) = p {
            assert(before.taken().push(x).drop_last() =~= before.taken());
        }
        assert forall|u: Unit| #[trigger] self.owes(u) == (match p {
            Some(Parcel::Install(unit)) => once(Some(unit), u) as int,
            _ => 0int,
        }) by {
            assert(before.owes(u) == 0);
        }
    }

    /// Every unit that came in is in the slot, parked, back with the host, or given up and counted:
    /// nothing drops a unit.
    pub proof fn law_no_unit_is_dropped(&self, u: Unit)
        requires
            self.wf(),
        ensures
            installs(self.taken(), u) == self.in_hand(u) + backs(self.sent(), u) + times(self.lost@, u),
    {
        assert(self.owes(u) == 0);
    }
}

impl Slot {
    /// The port's messages, up to so many, and the parked units. Without `fade` a unit wanted back is
    /// out at once.
    pub fn serve(
        &mut self,
        slot: u8,
        engaged: bool,
        fade: bool,
        dropped: &mut u64,
        errors: &mut u64,
        changes: &mut Vec<SlotChange>,
    )
        requires
            old(self).wf(),
        ensures
            final(self).wf(),
            served(
                old(self).desk(*old(dropped), *old(errors), old(changes)@),
                slot,
                engaged,
                fade,
                rings::parcels_polled(old(self).rx),
                rings::parcels_polled(final(self).rx),
                final(self).desk(*final(dropped), *final(errors), final(changes)@),
            ),
    {
        self.unpark();
        let ghost d0 = self.desk(*dropped, *errors, changes@);
        let ghost p0 = rings::parcels_polled(self.rx);
        let ghost mut trace: Seq<Desk> = seq![d0];
        let ghost mut polls: Seq<Option<Parcel>> = Seq::empty();
        let mut left: usize = MAX_MESSAGES;
        let mut more: bool = true;
        assert(p0 + polls =~= p0);
        while more && left > 0
            invariant
                self.wf(),
                follows(trace, slot, engaged, fade, rings::came(polls)),
                trace[0] == d0,
                trace.last() == self.desk(*dropped, *errors, changes@),
                rings::parcels_polled(self.rx) == p0 + polls,
                rings::unbroken(polls),
                polls.len() + left == MAX_MESSAGES,
                more && polls.len() > 0 ==> polls.last() is Some,
                !more ==> polls.len() > 0 && polls.last() is None,
            decreases left,
        {
            let ghost msgs = rings::came(polls);
            more = self.take_message(slot, engaged, fade, dropped, errors, changes);
            proof {
                let polled = rings::latest(self.rx);
                let looks = polls.push(polled);
                rings::lemma_came_push(polls, polled);
                assert(p0 + looks =~= (p0 + polls).push(polled));
                assert(rings::unbroken(looks));
                if let Some(p) = polled {
                    let next = trace.push(self.desk(*dropped, *errors, changes@));
                    let longer = msgs.push(p);
                    assert forall|k: int| 0 <= k < longer.len() implies (#[trigger] next[k]).met(
                        slot,
                        engaged,
                        fade,
                        longer[k],
                        next[k + 1],
                    ) by {
                        if k < msgs.len() {
                            assert(trace[k].met(slot, engaged, fade, msgs[k], trace[k + 1]));
                        }
                    }
                    trace = next;
                }
                polls = looks;
            }
            left = left - 1;
        }
        let ghost mid = self.desk(*dropped, *errors, changes@);
        assert(led(d0, slot, engaged, fade, rings::came(polls), mid));
        if !fade && self.removing {
            self.finish_removal(slot, errors, changes);
        }
    }
}

/// A slot served: the parked units handed back first, then its messages one by one until its ring was found
/// empty (or so many were taken that the rest waits), then a unit on its way out gone at once unless it
/// fades. `was` and `now` are what the looks at the ring had given before and have given since.
pub open spec fn served(
    before: Desk,
    slot: u8,
    engaged: bool,
    fade: bool,
    was: Seq<Option<Parcel>>,
    now: Seq<Option<Parcel>>,
    after: Desk,
) -> bool {
    exists|start: Desk, polls: Seq<Option<Parcel>>, mid: Desk|
        {
            &&& before.unparks(start)
            &&& #[trigger] led(start, slot, engaged, fade, rings::came(polls), mid)
            &&& now == was + polls
            &&& rings::unbroken(polls)
            &&& polls.len() > 0
            &&& polls.last() is None || polls.len() == MAX_MESSAGES
            &&& if !fade && mid.removing {
                mid.emptied(slot, after)
            } else {
                after == mid
            }
        }
}

/// A port that nothing waits on, and that nothing is to be sent back on, changes nothing.
pub proof fn law_an_empty_port_changes_nothing(
    before: Desk,
    slot: u8,
    engaged: bool,
    was: Seq<Option<Parcel>>,
    after: Desk,
)
    requires
        served(before, slot, engaged, true, was, was.push(None), after),
        before.parked[0] is None,
        before.parked[1] is None,
    ensures
        after == before,
{
    let (start, polls, mid) = choose|start: Desk, polls: Seq<Option<Parcel>>, mid: Desk|
        {
            &&& before.unparks(start)
            &&& #[trigger] led(start, slot, engaged, true, rings::came(polls), mid)
            &&& was.push(None) == was + polls
            &&& rings::unbroken(polls)
            &&& polls.len() > 0
            &&& polls.last() is None || polls.len() == MAX_MESSAGES
            &&& after == mid
        };
    assert(was.push(None).len() == was.len() + 1);
    assert(polls.len() == 1);
    assert(polls[0] == (was + polls)[was.len() as int]);
    assert(polls.drop_last().len() == 0);
    assert(rings::came(polls).len() == 0) by {
        reveal_with_fuel(rings::came, 2);
    }
}

// ── The rack ───────────────────────────────────────────────────────────────────────────────────────

/// The two slots, as the engine holds them.
pub struct Rack {
    pub slots: Vec<Slot>,
    /// The slot that takes the notes, if a slot is the note target.
    pub target: Option<usize>,
    /// The device frame the next render call starts at.
    pub cursor: Frame,
    pub events_dropped: u64,
    pub protocol_errors: u64,
}

impl Rack {
    pub open spec fn wf(&self) -> bool {
        &&& self.slots@.len() == SLOT_COUNT
        &&& self.slots@[0].wf()
        &&& self.slots@[1].wf()
        &&& (self.target matches Some(i) ==> i < SLOT_COUNT)
    }

    /// Only slot `i` and the counters are others.
    pub open spec fn same_but(&self, before: &Rack, i: int) -> bool {
        &&& self.slots@.len() == before.slots@.len()
        &&& forall|k: int| 0 <= k < SLOT_COUNT && k != i ==> #[trigger] self.slots@[k] == before.slots@[k]
        &&& self.target == before.target
        &&& self.cursor == before.cursor
    }

    /// Allocates: build it off the audio thread.
    pub fn new() -> (ends: (Rack, Vec<SlotPort>))
        ensures
            ends.0.wf(),
            ends.1@.len() == SLOT_COUNT,
            ends.0.target is None,
            ends.0.cursor == 0,
            ends.0.events_dropped == 0,
            ends.0.protocol_errors == 0,
            forall|i: int| 0 <= i < SLOT_COUNT ==> (#[trigger] ends.0.slots@[i]).fresh(RETURN_CAPACITY as nat),
            forall|i: int| 0 <= i < SLOT_COUNT ==> (#[trigger] ends.1@[i]).fresh(),
            forall|i: int| 0 <= i < SLOT_COUNT ==> (#[trigger] ends.1@[i]).joined(&ends.0.slots@[i]),
    {
        let (a, pa) = slot_channel();
        let (b, pb) = slot_channel();
        let mut slots: Vec<Slot> = Vec::new();
        slots.push(a);
        slots.push(b);
        let mut ports: Vec<SlotPort> = Vec::new();
        ports.push(pa);
        ports.push(pb);
        (Rack { slots, target: None, cursor: 0, events_dropped: 0, protocol_errors: 0 }, ports)
    }

    /// One slot's messages.
    fn serve_slot(&mut self, i: usize, engaged: bool, fade: bool, changes: &mut Vec<SlotChange>)
        requires
            i < SLOT_COUNT,
            old(self).wf(),
        ensures
            final(self).wf(),
            final(self).same_but(old(self), i as int),
            final(self).slot_served(old(self), i as int, engaged, fade, old(changes)@, final(changes)@),
    {
        self.slots[i].serve(
            i as u8,
            engaged,
            fade,
            &mut self.events_dropped,
            &mut self.protocol_errors,
            changes,
        );
    }

    pub open spec fn desk(&self, i: int, changes: Seq<SlotChange>) -> Desk {
        self.slots@[i].desk(self.events_dropped, self.protocol_errors, changes)
    }

    /// Slot `i` was served.
    pub open spec fn slot_served(
        &self,
        before: &Rack,
        i: int,
        engaged: bool,
        fade: bool,
        changes: Seq<SlotChange>,
        now: Seq<SlotChange>,
    ) -> bool {
        &&& served(
            before.desk(i, changes),
            i as u8,
            engaged,
            fade,
            rings::parcels_polled(before.slots@[i].rx),
            rings::parcels_polled(self.slots@[i].rx),
            self.desk(i, now),
        )
    }

    /// Both slots were served, the first before the second.
    pub open spec fn serviced(
        &self,
        before: &Rack,
        engaged: bool,
        fade: bool,
        changes: Seq<SlotChange>,
        now: Seq<SlotChange>,
    ) -> bool {
        exists|mid: Rack, half: Seq<SlotChange>|
            {
                &&& #[trigger] mid.slot_served(before, 0, engaged, fade, changes, half)
                &&& mid.same_but(before, 0)
                &&& self.slot_served(&mid, 1, engaged, fade, half, now)
                &&& self.same_but(&mid, 1)
            }
    }

    /// Apply the ports' messages. `engaged` installs without a fade (nothing has sounded yet, or no
    /// device runs).
    fn service(&mut self, engaged: bool, fade: bool, changes: &mut Vec<SlotChange>)
        requires
            old(self).wf(),
        ensures
            final(self).wf(),
            final(self).target == old(self).target,
            final(self).cursor == old(self).cursor,
            final(self).serviced(old(self), engaged, fade, old(changes)@, final(changes)@),
    {
        self.serve_slot(0, engaged, fade, changes);
        let ghost mid = *self;
        let ghost half = changes@;
        self.serve_slot(1, engaged, fade, changes);
        assert(mid.slot_served(old(self), 0, engaged, fade, old(changes)@, half));
    }

    /// At a block start: service the ports and start the render cursor.
    pub fn begin_block(&mut self, start: Frame, first: bool, changes: &mut Vec<SlotChange>)
        requires
            old(self).wf(),
        ensures
            final(self).wf(),
            final(self).target == old(self).target,
            final(self).cursor == start,
            exists|r: Rack|
                #![trigger r.serviced(old(self), first, true, old(changes)@, final(changes)@)]
                r.serviced(old(self), first, true, old(changes)@, final(changes)@) && *final(self) == (Rack {
                    cursor: start,
                    ..r
                }),
    {
        self.service(first, true, changes);
        let ghost r = *self;
        self.cursor = start;
        assert(r.serviced(old(self), first, true, old(changes)@, changes@));
    }

    /// With no device running (the host holds the engine): apply the ports' messages at once, no
    /// fades. A removed unit stops here and goes straight back.
    pub fn service_idle(&mut self, changes: &mut Vec<SlotChange>)
        requires
            old(self).wf(),
        ensures
            final(self).wf(),
            final(self).target == old(self).target,
            final(self).cursor == old(self).cursor,
            final(self).serviced(old(self), true, false, old(changes)@, final(changes)@),
    {
        self.service(true, false, changes);
    }

    fn evict_slot(&mut self, i: usize, changes: &mut Vec<SlotChange>)
        requires
            i < SLOT_COUNT,
            old(self).wf(),
        ensures
            final(self).wf(),
            final(self).same_but(old(self), i as int),
            final(self).slots@[i as int].rx == old(self).slots@[i as int].rx,
            old(self).desk(i as int, old(changes)@).cleared(i as u8, final(self).desk(i as int, final(changes)@)),
    {
        let ghost before = self.desk(i as int, changes@);
        let s = &mut self.slots[i];
        if s.unit.is_some() {
            s.finish_removal(i as u8, &mut self.protocol_errors, changes);
        }
        let ghost mid = s.desk(self.events_dropped, self.protocol_errors, changes@);
        s.unpark();
        assert(mid.unparks(self.desk(i as int, changes@)));
    }

    /// Slot `i` of this rack is cleared, and nothing else is another.
    pub open spec fn slot_cleared(
        &self,
        before: &Rack,
        i: int,
        from: Seq<SlotChange>,
        to: Seq<SlotChange>,
    ) -> bool {
        &&& self.same_but(before, i)
        &&& self.slots@[i].rx == before.slots@[i].rx
        &&& before.desk(i, from).cleared(i as u8, self.desk(i, to))
    }

    /// This rack is `before` with every unit stopped and handed back, and every parked unit as far as the
    /// return ring took it: the first slot, then the second.
    pub open spec fn evicted(&self, before: &Rack, from: Seq<SlotChange>, to: Seq<SlotChange>) -> bool {
        exists|mid: Rack, half: Seq<SlotChange>|
            #[trigger] mid.slot_cleared(before, 0, from, half) && self.slot_cleared(&mid, 1, half, to)
    }

    /// Stop every unit and hand it back (a sample-rate change: the host re-activates and reinstalls).
    pub fn evict(&mut self, changes: &mut Vec<SlotChange>)
        requires
            old(self).wf(),
        ensures
            final(self).wf(),
            final(self).evicted(old(self), old(changes)@, final(changes)@),
    {
        self.evict_slot(0, changes);
        let ghost mid = *self;
        let ghost half = changes@;
        self.evict_slot(1, changes);
        assert(mid.slot_cleared(old(self), 0, old(changes)@, half));
    }

    /// The latency of a slot's effect while it is live, 0 else.
    pub open spec fn latency_of(s: &Slot) -> int {
        if s.live && s.unit is Some && s.kind == SlotKind::Effect {
            s.latency as int
        } else {
            0
        }
    }

    /// Frames the wet signal lags the input: the largest latency of a live slot's effect.
    pub fn live_latency(&self) -> (frames: Frame)
        requires
            self.wf(),
        ensures
            frames == grid::max_int(Rack::latency_of(&self.slots@[0]), Rack::latency_of(&self.slots@[1])),
            frames >= 0,
    {
        let a: Frame = Rack::effect_latency(&self.slots[0]);
        let b: Frame = Rack::effect_latency(&self.slots[1]);
        if a >= b {
            a
        } else {
            b
        }
    }

    fn effect_latency(s: &Slot) -> (frames: Frame)
        requires
            s.wf(),
        ensures
            frames == Rack::latency_of(s),
            frames >= 0,
    {
        if s.live && s.unit.is_some() && s.kind == SlotKind::Effect {
            s.latency
        } else {
            0
        }
    }

    /// A slot holds an instrument: the master bus takes the slots' bus.
    pub fn has_instrument(&self) -> (r: bool)
        requires
            self.wf(),
        ensures
            r == exists|i: int|
                0 <= i < SLOT_COUNT && (#[trigger] self.slots@[i]).unit is Some && self.slots@[i].kind
                    == SlotKind::Instrument,
    {
        let r: bool = self.slots[0].instrument() || self.slots[1].instrument();
        assert(self.slots@[0].unit is Some && self.slots@[0].kind == SlotKind::Instrument || self.slots@[1].unit is Some
            && self.slots@[1].kind == SlotKind::Instrument <==> exists|i: int|
            0 <= i < SLOT_COUNT && (#[trigger] self.slots@[i]).unit is Some && self.slots@[i].kind
                == SlotKind::Instrument);
        r
    }

    /// A slot's unit: its kind and latency, `None` while the slot is empty.
    pub fn installed(&self, slot: usize) -> (r: Option<(SlotKind, Frame)>)
        requires
            self.wf(),
        ensures
            r is Some <==> slot < SLOT_COUNT && self.slots@[slot as int].unit is Some,
            r matches Some(x) ==> x.0 == self.slots@[slot as int].kind && x.1 == self.slots@[slot as int].latency,
    {
        if slot < SLOT_COUNT && self.slots[slot].unit.is_some() {
            Some((self.slots[slot].kind, self.slots[slot].latency))
        } else {
            None
        }
    }

    /// How far into the next render call a frame is.
    pub open spec fn offset_of(&self, now: Frame) -> u32 {
        grid::max_int(now - self.cursor, 0) as u32
    }

    fn offset(&self, now: Frame) -> (offset: u32)
        requires
            now - self.cursor <= u32::MAX,
            grid::fits(now - self.cursor),
        ensures
            offset == self.offset_of(now),
    {
        let past: Frame = now - self.cursor;
        if past > 0 {
            past as u32
        } else {
            0
        }
    }

    /// The keys slot `i` holds released, `now`.
    pub open spec fn keys_released(&self, before: &Rack, i: int, offset: u32) -> bool {
        &&& self.same_but(before, i)
        &&& self.protocol_errors == before.protocol_errors
        &&& self.slots@[i].same_unit(&before.slots@[i])
        &&& self.slots@[i].held@ == no_keys()
        &&& self.slots@[i].queue_of(self.events_dropped) == before.slots@[i].queue_of(
            before.events_dropped,
        ).released(before.slots@[i].held@, offset, KEY_COUNT as int)
    }

    fn release(&mut self, i: usize, offset: u32)
        requires
            i < SLOT_COUNT,
            old(self).wf(),
        ensures
            final(self).wf(),
            final(self).keys_released(old(self), i as int, offset),
    {
        self.slots[i].release_all(offset, &mut self.events_dropped);
    }

    /// The note target moves: the slot it leaves releases its notes, and so does the one it lands on
    /// when it stays.
    pub fn select(&mut self, target: Option<usize>, now: Frame)
        requires
            old(self).wf(),
            now - old(self).cursor <= u32::MAX,
            grid::fits(now - old(self).cursor),
        ensures
            final(self).wf(),
            final(self).selected(old(self), target, old(self).offset_of(now)),
    {
        let offset: u32 = self.offset(now);
        if let Some(i) = self.target {
            self.release(i, offset);
        }
        let ghost mid = *self;
        assert(mid.let_go(old(self), old(self).target, offset));
        let next: Option<usize> = match target {
            Some(i) if i < SLOT_COUNT => Some(i),
            _ => None,
        };
        if let Some(i) = next {
            self.release(i, offset);
        }
        let ghost last = *self;
        assert(last.let_go(&mid, next, offset));
        self.target = next;
        assert(*self == (Rack { target: next, ..last }));
        assert(next == Rack::in_rack(target));
    }

    /// The slot `i`, if any, let its keys go.
    pub open spec fn let_go(&self, before: &Rack, i: Option<usize>, offset: u32) -> bool {
        match i {
            Some(i) if i < SLOT_COUNT => self.keys_released(before, i as int, offset),
            _ => *self == *before,
        }
    }

    /// A target that is a slot of the rack.
    pub open spec fn in_rack(target: Option<usize>) -> Option<usize> {
        match target {
            Some(i) if i < SLOT_COUNT => Some(i),
            _ => None,
        }
    }

    /// The target moved: from the slot it was at, to `target` where there is one.
    pub open spec fn selected(&self, before: &Rack, target: Option<usize>, offset: u32) -> bool {
        let next = Rack::in_rack(target);
        exists|mid: Rack, last: Rack|
            {
                &&& #[trigger] mid.let_go(before, before.target, offset)
                &&& #[trigger] last.let_go(&mid, next, offset)
                &&& *self == (Rack { target: next, ..last })
            }
    }

    /// The slot notes go to takes them now: it holds a unit that is not on its way out.
    pub open spec fn sings(&self) -> bool {
        self.target is Some && self.slots@[self.target->0 as int].unit is Some
            && !self.slots@[self.target->0 as int].removing
    }

    /// A key struck: the target's unit takes it, where there is one.
    pub open spec fn struck(&self, before: &Rack, key: u8, velocity: Single, now: Frame) -> bool {
        if before.sings() && key < KEY_COUNT {
            let i = before.target->0 as int;
            let (a, b) = (&before.slots@[i], &self.slots@[i]);
            &&& self.same_but(before, i)
            &&& self.protocol_errors == before.protocol_errors
            &&& b.same_unit(a)
            &&& b.held@ == a.held@.update(key as int, true)
            &&& b.queue_of(self.events_dropped) == a.queue_of(before.events_dropped).put(
                SlotEvent {
                    offset: before.offset_of(now),
                    kind: SlotEventKind::NoteOn { key, velocity: velocity.level(SINGLE_ONE) },
                },
            )
        } else {
            *self == *before
        }
    }

    /// A key lifted: the target's unit lets it go, where it holds it.
    pub open spec fn lifted(&self, before: &Rack, key: u8, now: Frame) -> bool {
        if before.target is Some && key < KEY_COUNT && before.slots@[before.target->0 as int].held@[key as int] {
            let i = before.target->0 as int;
            let (a, b) = (&before.slots@[i], &self.slots@[i]);
            &&& self.same_but(before, i)
            &&& self.protocol_errors == before.protocol_errors
            &&& b.same_unit(a)
            &&& b.held@ == a.held@.update(key as int, false)
            &&& b.queue_of(self.events_dropped) == a.queue_of(before.events_dropped).put(
                SlotEvent { offset: before.offset_of(now), kind: SlotEventKind::NoteOff { key } },
            )
        } else {
            *self == *before
        }
    }

    pub fn note_on(&mut self, key: u8, velocity: Single, now: Frame)
        requires
            old(self).wf(),
            now - old(self).cursor <= u32::MAX,
            grid::fits(now - old(self).cursor),
        ensures
            final(self).wf(),
            final(self).struck(old(self), key, velocity, now),
    {
        let offset: u32 = self.offset(now);
        let i: usize = match self.target {
            Some(i) => i,
            None => {
                return;
            },
        };
        if key as usize >= KEY_COUNT || self.slots[i].unit.is_none() || self.slots[i].removing {
            return;
        }
        let level: Single = velocity.to_level(SINGLE_ONE);
        self.slots[i].play(key, level, offset, &mut self.events_dropped);
    }

    pub fn note_off(&mut self, key: u8, now: Frame)
        requires
            old(self).wf(),
            now - old(self).cursor <= u32::MAX,
            grid::fits(now - old(self).cursor),
        ensures
            final(self).wf(),
            final(self).lifted(old(self), key, now),
    {
        let offset: u32 = self.offset(now);
        let i: usize = match self.target {
            Some(i) => i,
            None => {
                return;
            },
        };
        if key as usize >= KEY_COUNT || !self.slots[i].held[key as usize] {
            return;
        }
        self.slots[i].lift(key, offset, &mut self.events_dropped);
    }

    pub fn all_notes_off(&mut self, now: Frame)
        requires
            old(self).wf(),
            now - old(self).cursor <= u32::MAX,
            grid::fits(now - old(self).cursor),
        ensures
            final(self).wf(),
            final(self).let_go(old(self), old(self).target, old(self).offset_of(now)),
    {
        let offset: u32 = self.offset(now);
        if let Some(i) = self.target {
            self.release(i, offset);
        }
    }

    /// A slot's live flag set.
    pub open spec fn lived(&self, before: &Rack, slot: int, live: bool) -> bool {
        if slot < SLOT_COUNT {
            &&& self.same_but(before, slot)
            &&& self.slots@[slot] == (Slot { live, ..before.slots@[slot] })
            &&& self.events_dropped == before.events_dropped
            &&& self.protocol_errors == before.protocol_errors
        } else {
            *self == *before
        }
    }

    /// A slot's level set: no less than silence, silence for no number.
    pub open spec fn levelled(&self, before: &Rack, slot: int, gain: Single) -> bool {
        if slot < SLOT_COUNT {
            &&& self.same_but(before, slot)
            &&& self.slots@[slot] == (Slot { gain: gain.gain(), ..before.slots@[slot] })
            &&& self.events_dropped == before.events_dropped
            &&& self.protocol_errors == before.protocol_errors
        } else {
            *self == *before
        }
    }

    pub fn set_live(&mut self, slot: usize, live: bool)
        requires
            old(self).wf(),
        ensures
            final(self).wf(),
            final(self).lived(old(self), slot as int, live),
    {
        if slot < SLOT_COUNT {
            self.slots[slot].live = live;
            proof {
                self.slots@[slot as int].lemma_same_accounts(&old(self).slots@[slot as int]);
            }
        }
    }

    /// The slot's level: no less than silence, silence for no number.
    pub fn set_gain(&mut self, slot: usize, gain: Single)
        requires
            old(self).wf(),
        ensures
            final(self).wf(),
            final(self).levelled(old(self), slot as int, gain),
    {
        if slot < SLOT_COUNT {
            self.slots[slot].gain = gain.to_gain();
            proof {
                self.slots@[slot as int].lemma_same_accounts(&old(self).slots@[slot as int]);
            }
        }
    }

    /// The crossfade of slot `i` reached bypass: a unit on its way out is out.
    pub fn faded_out(&mut self, i: usize, changes: &mut Vec<SlotChange>)
        requires
            i < SLOT_COUNT,
            old(self).wf(),
        ensures
            final(self).wf(),
            final(self).same_but(old(self), i as int),
            final(self).slots@[i as int].rx == old(self).slots@[i as int].rx,
            !old(self).slots@[i as int].removing ==> *final(self) == *old(self) && final(changes)@ == old(changes)@,
            old(self).slots@[i as int].removing ==> old(self).desk(i as int, old(changes)@).emptied(
                i as u8,
                final(self).desk(i as int, final(changes)@),
            ),
    {
        if self.slots[i].removing {
            self.slots[i].finish_removal(i as u8, &mut self.protocol_errors, changes);
        }
    }

    /// A render call of `frames` frames is over: its notes were heard.
    pub fn rendered(&mut self, frames: Frame)
        requires
            old(self).wf(),
            grid::fits(old(self).cursor + frames),
        ensures
            final(self).wf(),
            final(self).cursor == old(self).cursor + frames,
            final(self).target == old(self).target,
            final(self).events_dropped == old(self).events_dropped,
            final(self).protocol_errors == old(self).protocol_errors,
            forall|i: int|
                0 <= i < SLOT_COUNT ==> (#[trigger] final(self).slots@[i]).same_unit(&old(self).slots@[i])
                    && final(self).slots@[i].held@ == old(self).slots@[i].held@ && final(self).slots@[i].events@.len()
                    == 0,
    {
        self.slots[0].heard();
        self.slots[1].heard();
        self.cursor = self.cursor + frames;
    }
}

impl Slot {
    fn play(&mut self, key: u8, velocity: Single, offset: u32, dropped: &mut u64)
        requires
            old(self).wf(),
            key < KEY_COUNT,
        ensures
            final(self).wf(),
            final(self).same_unit(old(self)),
            final(self).held@ == old(self).held@.update(key as int, true),
            final(self).queue_of(*final(dropped)) == old(self).queue_of(*old(dropped)).put(
                SlotEvent { offset, kind: SlotEventKind::NoteOn { key, velocity } },
            ),
    {
        self.queue(SlotEventKind::NoteOn { key, velocity }, offset, dropped);
        self.held[key as usize] = true;
        proof {
            self.lemma_same_accounts(old(self));
        }
    }

    fn lift(&mut self, key: u8, offset: u32, dropped: &mut u64)
        requires
            old(self).wf(),
            key < KEY_COUNT,
        ensures
            final(self).wf(),
            final(self).same_unit(old(self)),
            final(self).held@ == old(self).held@.update(key as int, false),
            final(self).queue_of(*final(dropped)) == old(self).queue_of(*old(dropped)).put(
                SlotEvent { offset, kind: SlotEventKind::NoteOff { key } },
            ),
    {
        self.queue(SlotEventKind::NoteOff { key }, offset, dropped);
        self.held[key as usize] = false;
        proof {
            self.lemma_same_accounts(old(self));
        }
    }

    fn heard(&mut self)
        requires
            old(self).wf(),
        ensures
            final(self).wf(),
            final(self).same_unit(old(self)),
            final(self).held == old(self).held,
            final(self).events@.len() == 0,
    {
        self.events.clear();
        proof {
            self.lemma_same_accounts(old(self));
        }
    }
}

/// The frames an instrument slot's record path lags: `delay`, less the plugin's own latency, within a
/// line of `line` frames.
pub open spec fn record_lag(delay: int, latency: int, line: int) -> int {
    grid::min_int(grid::max_int(delay - latency, 0), line - 1)
}

pub fn record_delay(delay: Frame, latency: Frame, line: usize) -> (d: usize)
    requires
        line > 0,
        grid::fits(delay - latency),
    ensures
        d == record_lag(delay as int, latency as int, line as int),
        d < line,
{
    let late: Frame = delay - latency;
    if late <= 0 {
        0
    } else if late as u64 >= line as u64 {
        line - 1
    } else {
        late as usize
    }
}

/// The offset a note plays at in a call of `frames` frames: one stamped past the call plays on its last
/// frame.
pub fn event_offset(offset: u32, frames: u32) -> (at: u32)
    ensures
        at == grid::min_int(offset as int, grid::max_int(frames - 1, 0)),
{
    let last: u32 = if frames > 0 {
        frames - 1
    } else {
        0
    };
    if offset < last {
        offset
    } else {
        last
    }
}

/// A slot and its port.
fn slot_channel() -> (ends: (Slot, SlotPort))
    ensures
        ends.0.wf(),
        ends.0.fresh(RETURN_CAPACITY as nat),
        ends.1.fresh(),
        ends.1.joined(&ends.0),
{
    let (msg_tx, msg_rx) = parcel_ring(MSG_CAPACITY);
    let (ret_tx, ret_rx) = parcel_ring(RETURN_CAPACITY);
    (Slot::new(msg_rx, ret_tx), SlotPort { tx: msg_tx, rx: ret_rx })
}

proof fn lemma_backs_push(s: Seq<Parcel>, p: Parcel)
    ensures
        forall|u: Unit| #[trigger] backs(s.push(p), u) == backs(s, u) + (if p == Parcel::Back(u) {
            1nat
        } else {
            0nat
        }),
{
    assert(s.push(p).drop_last() =~= s);
}

proof fn lemma_times_push(s: Seq<Unit>, x: Unit)
    ensures
        forall|u: Unit| #[trigger] times(s.push(x), u) == times(s, u) + (if x == u {
            1nat
        } else {
            0nat
        }),
{
    assert(s.push(x).drop_last() =~= s);
}

/// No key held.
fn clear_keys() -> (held: Vec<bool>)
    ensures
        held@ == no_keys(),
{
    let mut held: Vec<bool> = Vec::with_capacity(KEY_COUNT);
    let mut k: usize = 0;
    while k < KEY_COUNT
        invariant
            k <= KEY_COUNT,
            held@.len() == k,
            forall|j: int| 0 <= j < k ==> !(#[trigger] held@[j]),
        decreases KEY_COUNT - k,
    {
        held.push(false);
        k = k + 1;
    }
    assert(held@ =~= no_keys());
    held
}

/// Every key up, in place.
fn lift_keys(held: &mut Vec<bool>)
    requires
        old(held)@.len() == KEY_COUNT,
    ensures
        final(held)@ == no_keys(),
{
    let mut k: usize = 0;
    while k < KEY_COUNT
        invariant
            k <= KEY_COUNT,
            held@.len() == KEY_COUNT,
            forall|j: int| 0 <= j < k ==> !(#[trigger] held@[j]),
        decreases KEY_COUNT - k,
    {
        held[k] = false;
        k = k + 1;
    }
    assert(held@ =~= no_keys());
}

} // verus!
