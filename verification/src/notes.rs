//! What the plugin slots promise: where a note goes, that no key stays down, and what becomes of a unit.

use vstd::prelude::*;

use crate::api::{Command, NoteTarget, SlotEvent, SlotEventKind, SlotKind, Unit, SLOT_COUNT};
use crate::float::{Single, SINGLE_ONE};
use crate::grid::Frame;
use crate::rings::Parcel;
use crate::slots::{record_lag, Desk, Queue, Rack, Slot, SlotChange, MAX_SLOT_EVENTS};

verus! {

/// How far into the next render call a frame lies.
pub open spec fn is_offset(rack: &Rack, now: Frame, offset: u32) -> bool {
    offset == (if now > rack.cursor {
        now - rack.cursor
    } else {
        0
    })
}

/// Slot `i`'s unit, its level and its place are as they were.
pub open spec fn unit_stays(a: &Slot, b: &Slot) -> bool {
    &&& b.unit == a.unit
    &&& b.kind == a.kind
    &&& b.latency == a.latency
    &&& b.removing == a.removing
    &&& b.live == a.live
    &&& b.gain == a.gain
}

/// A key struck is played by the slot that notes go to, on its frame, at its velocity held in 0 to 1, and is held
/// down there; no other slot hears of it.
pub proof fn law_a_key_is_struck_where_notes_go(before: &Rack, after: &Rack, i: usize, key: u8, v: Single, now: Frame)
    requires
        before.wf(),
        after.commanded(before, now, Command::NoteOn(key, v)),
        before.target == Some(i),
        i < SLOT_COUNT,
        before.slots@[i as int].unit is Some,
        !before.slots@[i as int].removing,
        key < 128,
        before.slots@[i as int].events@.len() < MAX_SLOT_EVENTS,
        now - before.cursor <= u32::MAX,
    ensures
        ({
            let (a, b) = (&before.slots@[i as int], &after.slots@[i as int]);
            let e = b.events@.last();
            &&& b.events@ == a.events@.push(e)
            &&& is_offset(before, now, e.offset)
            &&& e.kind matches SlotEventKind::NoteOn { key: k, velocity } && {
                &&& k == key
                &&& v.finite() && 0 <= v.rank() <= SINGLE_ONE ==> velocity == v
                &&& v.finite() && v.rank() > SINGLE_ONE ==> velocity.bits == SINGLE_ONE
                &&& !v.finite() || v.rank() < 0 ==> velocity.bits == 0
            }
            &&& b.held@ == a.held@.update(key as int, true)
            &&& unit_stays(a, b)
            &&& after.target == before.target
            &&& after.events_dropped == before.events_dropped
            &&& forall|j: int| 0 <= j < SLOT_COUNT && j != i ==> #[trigger] after.slots@[j] == before.slots@[j]
        }),
{
}

/// A key that is no key, or that no unit would hear, changes nothing.
pub proof fn law_a_key_nobody_hears_changes_nothing(before: &Rack, after: &Rack, key: u8, v: Single, now: Frame)
    requires
        before.wf(),
        after.commanded(before, now, Command::NoteOn(key, v)),
        key >= 128 || before.target is None || before.slots@[before.target->0 as int].unit is None
            || before.slots@[before.target->0 as int].removing,
    ensures
        *after == *before,
{
}

/// A key lifted is let go by the slot that notes go to, if it holds it, on its frame; a key it does not hold changes
/// nothing.
pub proof fn law_a_key_is_lifted_where_it_is_held(before: &Rack, after: &Rack, i: usize, key: u8, now: Frame)
    requires
        before.wf(),
        after.commanded(before, now, Command::NoteOff(key)),
        before.target == Some(i),
        i < SLOT_COUNT,
        key < 128,
        before.slots@[i as int].events@.len() < MAX_SLOT_EVENTS,
        now - before.cursor <= u32::MAX,
    ensures
        ({
            let (a, b) = (&before.slots@[i as int], &after.slots@[i as int]);
            let e = b.events@.last();
            &&& !a.held@[key as int] ==> *after == *before
            &&& a.held@[key as int] ==> {
                &&& b.events@ == a.events@.push(e)
                &&& is_offset(before, now, e.offset)
                &&& e.kind == (SlotEventKind::NoteOff { key })
                &&& b.held@ == a.held@.update(key as int, false)
                &&& unit_stays(a, b)
                &&& forall|j: int| 0 <= j < SLOT_COUNT && j != i ==> #[trigger] after.slots@[j] == before.slots@[j]
            }
        }),
{
}

/// The keys held below `k`.
pub open spec fn down(held: Seq<bool>, k: int) -> nat
    decreases k,
{
    if k <= 0 {
        0
    } else {
        down(held, k - 1) + (if held[k - 1] {
            1nat
        } else {
            0nat
        })
    }
}

/// A release lifts each key that is held, once, lowest first, on its frame, and no other key; what was queued before
/// stays before it.
pub proof fn law_a_release_lifts_each_held_key(q: Queue, held: Seq<bool>, offset: u32, k: int, key: int)
    requires
        0 <= k <= held.len(),
        k <= 128,
        q.events.len() + down(held, k) <= MAX_SLOT_EVENTS,
    ensures
        ({
            let r = q.released(held, offset, k);
            &&& r.dropped == q.dropped
            &&& r.events.len() == q.events.len() + down(held, k)
            &&& forall|n: int| 0 <= n < q.events.len() ==> #[trigger] r.events[n] == q.events[n]
            &&& 0 <= key < k && held[key] ==> r.events[(q.events.len() + down(held, key)) as int] == (SlotEvent {
                offset,
                kind: SlotEventKind::NoteOff { key: key as u8 },
            })
        }),
    decreases k,
{
    if k > 0 {
        law_a_release_lifts_each_held_key(q, held, offset, k - 1, key);
        if 0 <= key < k - 1 && held[key] {
            lemma_down(held, key, k - 1);
        }
    }
}

proof fn lemma_down(held: Seq<bool>, j: int, k: int)
    requires
        0 <= j < k,
        held[j],
    ensures
        down(held, j) < down(held, k),
    decreases k,
{
    if j < k - 1 {
        lemma_down(held, j, k - 1);
    }
}

/// No key is down.
pub open spec fn all_up(s: &Slot) -> bool {
    forall|k: int| 0 <= k < s.held@.len() ==> !#[trigger] s.held@[k]
}

/// ALL NOTES OFF leaves no key down where the notes go, and touches no other slot.
pub proof fn law_all_notes_off_lifts_every_key(before: &Rack, after: &Rack, i: usize, now: Frame)
    requires
        before.wf(),
        after.commanded(before, now, Command::AllNotesOff),
        before.target == Some(i),
        i < SLOT_COUNT,
    ensures
        all_up(&after.slots@[i as int]),
        unit_stays(&before.slots@[i as int], &after.slots@[i as int]),
        after.target == before.target,
        forall|j: int| 0 <= j < SLOT_COUNT && j != i ==> #[trigger] after.slots@[j] == before.slots@[j],
        ({
            let (a, b) = (&before.slots@[i as int], &after.slots@[i as int]);
            b.queue_of(after.events_dropped) == a.queue_of(before.events_dropped).released(
                a.held@,
                before.offset_of(now),
                128,
            )
        }),
{
}

/// Where the notes go moves with the choice, to a slot or to none; neither the slot they leave nor the one they come
/// to has a key down, and every unit stays.
pub proof fn law_a_moved_target_leaves_no_key_down(before: &Rack, after: &Rack, to: u8, now: Frame)
    requires
        before.wf(),
        after.commanded(before, now, Command::SelectInstrument(NoteTarget::Slot(to))),
    ensures
        to < SLOT_COUNT ==> after.target == Some(to as usize) && all_up(&after.slots@[to as int]),
        to >= SLOT_COUNT ==> after.target is None,
        before.target matches Some(i) ==> i < SLOT_COUNT ==> all_up(&after.slots@[i as int]),
        forall|j: int| 0 <= j < SLOT_COUNT ==> unit_stays(&before.slots@[j], #[trigger] &after.slots@[j]),
{
    let offset = before.offset_of(now);
    let next = Rack::in_rack(Some(to as usize));
    let (mid, last) = choose|mid: Rack, last: Rack|
        {
            &&& #[trigger] mid.let_go(before, before.target, offset)
            &&& #[trigger] last.let_go(&mid, next, offset)
            &&& *after == (Rack { target: next, ..last })
        };
    assert forall|j: int| 0 <= j < SLOT_COUNT implies unit_stays(&before.slots@[j], #[trigger] &after.slots@[j]) by {
        assert(unit_stays(&before.slots@[j], &mid.slots@[j]));
    }
}

/// A built-in instrument takes the notes from the slots: no slot has them, and the one that had them has no key down.
pub proof fn law_a_built_in_instrument_takes_the_notes(
    before: &Rack,
    after: &Rack,
    instrument: crate::api::Instrument,
    now: Frame,
)
    requires
        before.wf(),
        after.commanded(before, now, Command::SelectInstrument(NoteTarget::Builtin(instrument))),
    ensures
        after.target is None,
        before.target matches Some(i) ==> i < SLOT_COUNT ==> all_up(&after.slots@[i as int]),
{
    let offset = before.offset_of(now);
    let next = Rack::in_rack(None);
    let (mid, last) = choose|mid: Rack, last: Rack|
        {
            &&& #[trigger] mid.let_go(before, before.target, offset)
            &&& #[trigger] last.let_go(&mid, next, offset)
            &&& *after == (Rack { target: next, ..last })
        };
    assert(last == mid);
}

/// GO LIVE and the level are set on their slot, and nothing else; a level is never below silence.
pub proof fn law_a_slot_is_set_as_asked(before: &Rack, after: &Rack, i: u8, on: bool, gain: Single, now: Frame)
    requires
        i < SLOT_COUNT,
    ensures
        after.commanded(before, now, Command::SetSlotLive(i, on)) ==> after.slots@[i as int] == (Slot {
            live: on,
            ..before.slots@[i as int]
        }) && (forall|j: int| 0 <= j < SLOT_COUNT && j != i ==> #[trigger] after.slots@[j] == before.slots@[j])
            && after.target == before.target,
        after.commanded(before, now, Command::SetSlotGain(i, gain)) ==> ({
            let set = after.slots@[i as int].gain;
            &&& after.slots@[i as int] == (Slot { gain: set, ..before.slots@[i as int] })
            &&& gain.finite() && gain.rank() >= 0 ==> set == gain
            &&& !gain.finite() || gain.rank() < 0 ==> set.bits == 0
            &&& forall|j: int| 0 <= j < SLOT_COUNT && j != i ==> #[trigger] after.slots@[j] == before.slots@[j]
        }),
{
}

/// A slot hears the device's input while it is live, unless it holds an instrument; only a live effect delays what
/// is recorded.
pub proof fn law_a_live_slot_hears_the_input(s: &Slot)
    ensures
        !s.live ==> !s.hears_input() && Rack::latency_of(s) == 0,
        s.live && s.unit is None ==> s.hears_input() && Rack::latency_of(s) == 0,
        s.live && s.unit is Some && s.kind == SlotKind::Effect ==> s.hears_input() && Rack::latency_of(s) == s.latency,
        s.live && s.unit is Some && s.kind == SlotKind::Instrument ==> !s.hears_input() && Rack::latency_of(s) == 0,
{
}

/// What is recorded of an instrument is delayed by what its own latency leaves of the delay, as far as the line
/// reaches.
pub proof fn law_an_instrument_is_recorded_in_time(delay: int, latency: int, line: int)
    requires
        line > 0,
    ensures
        delay <= latency ==> record_lag(delay, latency, line) == 0,
        latency <= delay < latency + line ==> latency + record_lag(delay, latency, line) == delay,
        latency + line <= delay ==> record_lag(delay, latency, line) == line - 1,
{
}

// ── Units ──────────────────────────────────────────────────────────────────────────────────────────

/// A unit is accounted for: the return ring was offered it and took it, or it waits in one of the two places to
/// park, or, both taken, it is given up and counted.
pub open spec fn goes_back(before: Desk, after: Desk, unit: Unit) -> bool {
    &&& after.offers.len() == before.offers.len() + 1
    &&& after.offers.last().0 == Parcel::Back(unit)
    &&& before.room > 0 ==> after.offers.last().1
    &&& after.offers.last().1 ==> after.parked == before.parked && after.lost == before.lost && after.errors
        == before.errors
    &&& !after.offers.last().1 && before.parked[0] is None ==> after.parked[0] == Some(unit) && after.parked[1]
        == before.parked[1] && after.lost == before.lost
    &&& !after.offers.last().1 && before.parked[0] is Some && before.parked[1] is None ==> after.parked[0]
        == before.parked[0] && after.parked[1] == Some(unit) && after.lost == before.lost
    &&& !after.offers.last().1 && before.parked[0] is Some && before.parked[1] is Some ==> after.parked
        == before.parked && after.lost == before.lost.push(unit)
}

/// A unit sent to an EMPTY slot is installed in it: its kind and latency are the slot's, no key is down, no note
/// waits.
pub proof fn law_an_empty_slot_takes_a_unit(before: Desk, slot: u8, engaged: bool, fade: bool, unit: Unit, after: Desk)
    requires
        before.unit is None,
        before.met(slot, engaged, fade, Parcel::Install(unit), after),
    ensures
        after.unit == Some(unit),
        after.kind == unit.kind,
        unit.latency >= 0 ==> after.latency == unit.latency,
        unit.latency < 0 ==> after.latency == 0,
        !after.removing,
        forall|k: int| 0 <= k < after.held.len() ==> !#[trigger] after.held[k],
        after.queue.events.len() == 0,
        after.changes == before.changes.push(SlotChange::Installed { slot, unit, engaged }),
        after.offers == before.offers,
        after.parked == before.parked,
        after.lost == before.lost,
        after.live == before.live,
        after.gain == before.gain,
        after.errors == before.errors,
{
}

/// A unit sent to a slot that has one goes straight back, counted; the slot keeps the one it has.
pub proof fn law_a_full_slot_sends_a_unit_back(before: Desk, slot: u8, engaged: bool, fade: bool, unit: Unit, after: Desk)
    requires
        before.unit is Some,
        before.parked.len() == 2,
        before.met(slot, engaged, fade, Parcel::Install(unit), after),
    ensures
        after.unit == before.unit,
        after.kind == before.kind,
        after.removing == before.removing,
        after.held == before.held,
        after.queue == before.queue,
        after.changes == before.changes,
        goes_back(Desk { errors: before.errors.wrapping_add(1), ..before }, after, unit),
{
}

/// A unit wanted back is on its way out: it plays no more notes, every key it holds is lifted, and it stays until it
/// has faded. An EMPTY slot has nothing to give.
pub proof fn law_a_unit_wanted_back_is_on_its_way(before: Desk, slot: u8, engaged: bool, fade: bool, after: Desk)
    requires
        before.met(slot, engaged, fade, Parcel::Remove, after),
    ensures
        before.unit is None ==> after == before,
        before.unit is Some ==> {
            &&& after.removing
            &&& after.unit == before.unit
            &&& forall|k: int| 0 <= k < after.held.len() ==> !#[trigger] after.held[k]
            &&& after.queue == before.queue.released(before.held, 0, 128)
            &&& after.changes == before.changes.push(SlotChange::Leaving { slot, fade })
            &&& after.offers == before.offers
            &&& after.parked == before.parked
        },
{
}

/// A unit that is out has stopped and goes back; its slot is EMPTY, with no key down and no note waiting.
pub proof fn law_a_unit_that_is_out_goes_back(before: Desk, slot: u8, unit: Unit, after: Desk)
    requires
        before.unit == Some(unit),
        before.parked.len() == 2,
        before.emptied(slot, after),
    ensures
        after.unit is None,
        after.kind == SlotKind::Effect,
        after.latency == 0,
        !after.removing,
        forall|k: int| 0 <= k < after.held.len() ==> !#[trigger] after.held[k],
        after.queue.events.len() == 0,
        after.changes == before.changes.push(SlotChange::Stop { slot, unit }),
        goes_back(before, after, unit),
{
}

/// A parked unit leaves its place only when the return ring took it.
pub proof fn law_a_parked_unit_waits_for_room(before: Desk, k: int, after: Desk)
    requires
        0 <= k < 2,
        before.parked.len() == 2,
        before.tried(k, after),
    ensures
        before.parked[k] is None ==> after == before,
        before.parked[k] matches Some(unit) ==> {
            &&& after.offers.last().0 == Parcel::Back(unit)
            &&& before.room > 0 ==> after.offers.last().1
            &&& after.offers.last().1 ==> after.parked == before.parked.update(k, None)
            &&& !after.offers.last().1 ==> after.parked == before.parked
            &&& after.lost == before.lost
            &&& after.unit == before.unit
        },
{
}

} // verus!
