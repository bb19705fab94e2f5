//! What UNDO, REVERSE, STOP, CLEAR and the commands to every lane change, and what they leave alone.

use vstd::prelude::*;

use crate::api::{Command, LaneState, TRACK_COUNT};
use crate::clock::Clock;
use crate::deck;
use crate::deck::{Applied, Deck, FxAction, Lane, World};
use crate::float::SINGLE_ONE;
use crate::grid;
use crate::grid::Frame;
use crate::looper::gestures;
use crate::looper::gestures::{at_rest, others_same, same_loop, same_transport};

verus! {

/// `at` is the first frame from `now` on where the loops start over.
pub open spec fn is_next_start(w: World, now: Frame, at: Frame) -> bool {
    let (anchor, master) = (w.deck.anchor as int, w.deck.master as int);
    &&& now <= at < now + master
    &&& (at - anchor) % master == 0
    &&& forall|g: int| now <= g < at ==> #[trigger] ((g - anchor) % master) != 0
}

/// The next boundary is that frame.
pub proof fn lemma_next_start(w: World, now: Frame)
    requires
        w.inv(now),
        w.deck.master > 0,
    ensures
        is_next_start(w, now, w.boundary(now)),
{
    w.lemma_boundary(now);
    let (anchor, master) = (w.deck.anchor as int, w.deck.master as int);
    grid::law_next_boundary_is_the_first_loop_start(anchor, master, now as int);
    let at = w.boundary(now);
    assert forall|g: int| now <= g < at implies #[trigger] ((g - anchor) % master) != 0 by {
        gestures::lemma_one_start(anchor, master, g, at as int);
    }
}

/// The pulse beats with a loop of `bars` bars that starts on `anchor`: four beats a bar, the next one the first from
/// `now` on, none of them counted in.
pub open spec fn beats_with(clock: Clock, anchor: int, master: int, bars: int, now: Frame) -> bool {
    clock.pulse matches Some(p) && {
        &&& p.grid.base_frame == anchor
        &&& p.grid.base_index == 0
        &&& p.grid.num == master
        &&& p.grid.den == 4 * bars
        &&& p.next == p.grid.first_beat(now as int) as u64
        &&& p.forced_until == 0
        &&& !p.free_run
    }
}

/// The loop of a session in whole bars, one at least.
pub proof fn lemma_bars_of(master: int, fpb: int, bars: int)
    requires
        fpb > 0,
        bars >= 1,
        master == bars * fpb,
    ensures
        grid::max_int(master / fpb, 1) == bars,
        master / fpb == bars,
{
    vstd::arithmetic::div_mod::lemma_fundamental_div_mod_converse(master, fpb, bars, 0);
}

/// What is heard of lane `i` after its loop was changed: a STOPPED one shows the change at once, a PLAYING one
/// plays on as it was until its loop starts over.
pub open spec fn changes_on_the_loop_start(w: World, after: World, now: Frame, i: int) -> bool {
    let (a, b) = (w.lane(i), after.lane(i));
    &&& b.state == a.state
    &&& a.state == LaneState::Stopped ==> {
        &&& b.audible.buf == b.live
        &&& b.audible.reversed == b.reversed
        &&& b.switch_at is None
    }
    &&& a.state == LaneState::Playing ==> {
        &&& b.audible == a.audible
        &&& b.switch_at matches Some(at) && is_next_start(w, now, at)
    }
}

// ── UNDO and REVERSE ───────────────────────────────────────────────────────────────────────────────

/// UNDO plays the loop from before the last overdub, the way round it had, and keeps the other for the next
/// UNDO. Nothing else changes.
pub proof fn law_undo_swaps_the_loop_for_the_one_before(w: World, now: Frame, align: Frame, i: int)
    requires
        w.inv(now),
        0 <= i < TRACK_COUNT,
        w.lane(i).is_committed(),
        w.lane(i).stop_at is None,
        w.lane(i).undo_valid,
        at_rest(w.jobs, i),
    ensures
        ({
            let after = w.commanded(now, align, Command::Undo(i as u8));
            let (a, b) = (w.lane(i), after.lane(i));
            &&& w.command_answer(now, Command::Undo(i as u8)) == Applied::Done
            &&& b.live == a.spare
            &&& b.reversed == a.spare_reversed
            &&& b.spare == a.live
            &&& b.spare_reversed == a.reversed
            &&& b.undo_valid
            &&& b.length == a.length
            &&& b.period == a.period
            &&& b.volume == a.volume
            &&& b.muted == a.muted
            &&& b.stop_at is None
            &&& changes_on_the_loop_start(w, after, now, i)
            &&& others_same(w, after, i)
            &&& same_transport(w, after)
            &&& after.said == w.said
            &&& after.fx == w.fx
        }),
{
    reveal(World::lane_commanded);
    w.lemma_lane(now, i);
    gestures::lemma_at_rest(w.jobs, i, false);
    lemma_next_start(w, now);
}

/// Without an overdub to take back, without a loop or while the lane stops, UNDO does nothing.
pub proof fn law_undo_without_a_layer_does_nothing(w: World, now: Frame, align: Frame, i: int)
    requires
        0 <= i < TRACK_COUNT,
        !w.lane(i).undo_valid || !w.lane(i).is_committed() || w.lane(i).stop_at is Some,
    ensures
        w.commanded(now, align, Command::Undo(i as u8)) == w,
        w.command_answer(now, Command::Undo(i as u8)) == Applied::Done,
{
    reveal(World::lane_commanded);
}

/// REVERSE turns the loop round, on the same buffer, and leaves the undo target as it was.
pub proof fn law_reverse_turns_the_loop_round(w: World, now: Frame, align: Frame, i: int)
    requires
        w.inv(now),
        0 <= i < TRACK_COUNT,
        w.lane(i).is_committed(),
        w.lane(i).stop_at is None,
        at_rest(w.jobs, i),
    ensures
        ({
            let after = w.commanded(now, align, Command::Reverse(i as u8));
            let (a, b) = (w.lane(i), after.lane(i));
            &&& w.command_answer(now, Command::Reverse(i as u8)) == Applied::Done
            &&& b.reversed == !a.reversed
            &&& same_loop(Lane { reversed: b.reversed, ..a }, b)
            &&& b.stop_at is None
            &&& changes_on_the_loop_start(w, after, now, i)
            &&& others_same(w, after, i)
            &&& same_transport(w, after)
            &&& after.said == w.said
            &&& after.fx == w.fx
        }),
{
    reveal(World::lane_commanded);
    w.lemma_lane(now, i);
    gestures::lemma_at_rest(w.jobs, i, false);
    lemma_next_start(w, now);
}

/// A lane that has no loop, or stops, is not turned.
pub proof fn law_reverse_without_a_loop_does_nothing(w: World, now: Frame, align: Frame, i: int)
    requires
        0 <= i < TRACK_COUNT,
        !w.lane(i).is_committed() || w.lane(i).stop_at is Some,
    ensures
        w.commanded(now, align, Command::Reverse(i as u8)) == w,
        w.command_answer(now, Command::Reverse(i as u8)) == Applied::Done,
{
    reveal(World::lane_commanded);
}

/// A change that waits for the loop start is heard from its frame on, not before.
pub proof fn law_a_change_is_heard_from_its_frame(w: World, now: Frame, i: int)
    requires
        w.inv(now),
        0 <= i < TRACK_COUNT,
        w.lane(i).state == LaneState::Playing,
        w.lane(i).switch_at is Some,
        w.lane(i).stop_at is None,
    ensures
        ({
            let after = w.lane_due(now, i);
            let (a, b) = (w.lane(i), after.lane(i));
            &&& same_loop(a, b)
            &&& b.state == LaneState::Playing
            &&& others_same(w, after, i)
            &&& same_transport(w, after)
            &&& now < a.switch_at->0 ==> b == a
            &&& a.switch_at->0 <= now ==> b.switch_at is None && b.audible.buf == a.live && b.audible.reversed
                == a.reversed
        }),
{
    reveal(World::lane_due);
    w.lemma_lane(now, i);
}

// ── STOP ───────────────────────────────────────────────────────────────────────────────────────────

/// STOP silences a lane that has a loop on its frame, whether a loop-end stop is pending or not; what it holds
/// stays.
pub proof fn law_stop_silences_a_lane_now(w: World, now: Frame, align: Frame, i: int)
    requires
        w.inv(now),
        0 <= i < TRACK_COUNT,
        w.lane(i).is_committed(),
    ensures
        ({
            let after = w.commanded(now, align, Command::Stop(i as u8));
            &&& w.command_answer(now, Command::Stop(i as u8)) == Applied::Done
            &&& after.lane(i).state == LaneState::Stopped
            &&& after.lane(i).stop_at is None
            &&& after.lane(i).switch_at is None
            &&& after.lane(i).audible.buf == w.lane(i).live
            &&& after.lane(i).audible.reversed == w.lane(i).reversed
            &&& same_loop(w.lane(i), after.lane(i))
            &&& others_same(w, after, i)
            &&& same_transport(w, after)
            &&& after.said == w.said
            &&& after.fx == w.fx
        }),
{
    reveal(World::lane_commanded);
    reveal(World::stopped);
    w.lemma_lane(now, i);
}

/// STOP on a take, a count-in, an arm or AUTO listening drops it: the lane is EMPTY again, the recorder free, and
/// the tempo too where there is no master. The other lanes play on.
pub proof fn law_stop_drops_a_take(w: World, now: Frame, align: Frame, i: int)
    requires
        w.inv(now),
        0 <= i < TRACK_COUNT,
        w.lane(i).state == LaneState::Recording,
        w.lane(i).length == 0,
    ensures
        ({
            let after = w.commanded(now, align, Command::Stop(i as u8));
            &&& w.command_answer(now, Command::Stop(i as u8)) == Applied::Done
            &&& after.lane(i).state == LaneState::Empty
            &&& after.lane(i).length == 0
            &&& after.lane(i).written == 0
            &&& !after.lane(i).armed
            &&& !after.lane(i).auto_armed
            &&& after.lane(i).volume == w.lane(i).volume
            &&& after.lane(i).muted == w.lane(i).muted
            &&& after.deck.rec is None
            &&& others_same(w, after, i)
            &&& after.jobs == w.jobs
            &&& after.said == w.said
            &&& after.fx == w.fx
            &&& after.clock.bpm == w.clock.bpm
            &&& w.deck.master == 0 ==> !after.clock.locked
            &&& (exists|k: int| 0 <= k < TRACK_COUNT && k != i && (#[trigger] w.deck.lanes@[k]).state != LaneState::Empty)
                ==> after.deck.master == w.deck.master && after.deck.anchor == w.deck.anchor && after.clock.pulse
                == w.clock.pulse
            &&& (forall|k: int| 0 <= k < TRACK_COUNT && k != i ==> (#[trigger] w.deck.lanes@[k]).state == LaneState::Empty)
                ==> after.deck.master == 0 && !after.clock.locked && after.clock.pulse is Some && after.clock.pulse->0.free_run
        }),
{
    reveal(World::lane_commanded);
    reveal(World::stopped);
    reveal(Deck::is_blank);
    w.lemma_lane(now, i);
    w.lemma_rec(now);
    assert(w.deck.rec is Some && w.deck.rec->0.lane == i) by {
        reveal(Deck::rec_ok);
        assert(w.deck.lanes@[i].is_capturing());
    }
    let t = w.lane(i);
    let settled = w.with_lane(i, Lane { stop_at: None, ..t }).aborted(now, i).settled(i, true);
    assert(settled.lane(i).state == LaneState::Empty);
    if exists|k: int| 0 <= k < TRACK_COUNT && k != i && (#[trigger] w.deck.lanes@[k]).state != LaneState::Empty {
        let k = choose|k: int| 0 <= k < TRACK_COUNT && k != i && (#[trigger] w.deck.lanes@[k]).state != LaneState::Empty;
        assert(settled.deck.lanes@[k] == w.deck.lanes@[k]);
        w.lemma_lane(now, k);
    } else {
        assert forall|k: int| 0 <= k < TRACK_COUNT implies (#[trigger] settled.deck.lanes@[k]).state == LaneState::Empty by {
            if k != i {
                assert(settled.deck.lanes@[k] == w.deck.lanes@[k]);
            }
        }
    }
}

/// STOP on an EMPTY lane does nothing.
pub proof fn law_stop_on_an_empty_lane_does_nothing(w: World, now: Frame, align: Frame, i: int)
    requires
        0 <= i < TRACK_COUNT,
        w.lane(i).state == LaneState::Empty,
    ensures
        w.commanded(now, align, Command::Stop(i as u8)) == w,
{
    reveal(World::lane_commanded);
    reveal(World::stopped);
}

// ── CLEAR ──────────────────────────────────────────────────────────────────────────────────────────

/// A lane as it is before anything was recorded on it.
pub open spec fn is_fresh(t: Lane) -> bool {
    &&& t.state == LaneState::Empty
    &&& t.length == 0
    &&& t.period == 0
    &&& t.written == 0
    &&& !t.armed
    &&& !t.auto_armed
    &&& !t.reversed
    &&& !t.undo_valid
    &&& t.stop_at is None
    &&& t.switch_at is None
    &&& t.audible.buf == t.live
    &&& !t.audible.reversed
    &&& t.volume.bits == SINGLE_ONE
    &&& !t.muted
}

/// CLEAR empties its lane (its volume, mute and effects too) and ends a capture on it; the others play on. The
/// last loop takes the master and the tempo's lock with it.
pub proof fn law_clear_empties_one_lane(w: World, now: Frame, align: Frame, i: int)
    requires
        w.inv(now),
        0 <= i < TRACK_COUNT,
        w.lane(i).state != LaneState::Empty,
        at_rest(w.jobs, i),
    ensures
        ({
            let after = w.commanded(now, align, Command::Clear(i as u8));
            let mine = w.deck.rec is Some && w.deck.rec->0.lane == i;
            let last = (w.deck.rec is None || mine) && forall|k: int|
                0 <= k < TRACK_COUNT && k != i ==> (#[trigger] w.deck.lanes@[k]).state == LaneState::Empty;
            &&& w.command_answer(now, Command::Clear(i as u8)) == Applied::Done
            &&& is_fresh(after.lane(i))
            &&& after.lane(i).live == w.lane(i).live
            &&& after.lane(i).spare == w.lane(i).spare
            &&& others_same(w, after, i)
            &&& after.fx == w.fx.push(FxAction::Reset { lane: i as u8 })
            &&& after.said == w.said
            &&& after.jobs == w.jobs
            &&& after.deck.rec == (if mine {
                None
            } else {
                w.deck.rec
            })
            &&& after.clock.bpm == w.clock.bpm
            &&& last ==> after.deck.anchor == 0
            &&& last ==> after.deck.master == 0 && !after.clock.locked && after.clock.pulse is Some && after.clock.pulse->0.free_run
            &&& !last ==> after.deck.master == w.deck.master && after.deck.anchor == w.deck.anchor && after.clock.pulse
                == w.clock.pulse
            &&& !last && w.deck.master > 0 ==> after.clock == w.clock
        }),
{
    reveal(World::lane_commanded);
    reveal(Deck::is_blank);
    w.lemma_lane(now, i);
    if w.deck.rec is Some {
        w.lemma_rec(now);
    }
    gestures::lemma_at_rest(w.jobs, i, false);
    let v = w.released(i);
    let t = v.lane(i);
    let bare = World { fx: v.fx.push(FxAction::Reset { lane: i as u8 }), ..v }.with_lane(i, Lane::blank(t.live, t.spare));
    assert forall|k: int| 0 <= k < TRACK_COUNT && k != i implies #[trigger] bare.deck.lanes@[k] == w.deck.lanes@[k] by {}
    if bare.blank() {
        assert forall|k: int| 0 <= k < TRACK_COUNT && k != i implies (#[trigger] w.deck.lanes@[k]).state
            == LaneState::Empty by {
            assert(bare.deck.lanes@[k] == w.deck.lanes@[k]);
        }
    }
}

/// CLEAR on an EMPTY lane does nothing.
pub proof fn law_clear_on_an_empty_lane_does_nothing(w: World, now: Frame, align: Frame, i: int)
    requires
        0 <= i < TRACK_COUNT,
        w.lane(i).state == LaneState::Empty,
    ensures
        w.commanded(now, align, Command::Clear(i as u8)) == w,
        w.command_answer(now, Command::Clear(i as u8)) == Applied::Done,
{
    reveal(World::lane_commanded);
}

// ── Every lane ─────────────────────────────────────────────────────────────────────────────────────

/// No job of any lane is in work.
pub open spec fn all_rest(jobs: Seq<Option<deck::Job>>) -> bool {
    forall|k: int| 0 <= k < jobs.len() ==> (#[trigger] jobs[k]) is None
}

proof fn lemma_all_rest(jobs: Seq<Option<deck::Job>>)
    requires
        all_rest(jobs),
    ensures
        deck::delay_until(jobs, None, false) is None,
    decreases jobs.len(),
{
    if jobs.len() > 0 {
        let before = jobs.drop_last();
        assert forall|k: int| 0 <= k < before.len() implies (#[trigger] before[k]) is None by {
            assert(before[k] == jobs[k]);
        }
        lemma_all_rest(before);
        assert(jobs.last() == jobs[jobs.len() - 1]);
    }
}

/// A lane that plays what it has.
pub open spec fn plays_its_loop(a: Lane, b: Lane) -> bool {
    &&& b.state == LaneState::Playing
    &&& b.stop_at is None
    &&& b.switch_at is None
    &&& b.audible.buf == a.live
    &&& b.audible.reversed == a.reversed
    &&& same_loop(a, b)
}

proof fn lemma_resumed_from(w: World, now: Frame, k: int, stopped: Seq<bool>)
    requires
        0 <= k <= TRACK_COUNT,
        stopped.len() == TRACK_COUNT,
        forall|x: int| k <= x < TRACK_COUNT && #[trigger] stopped[x] ==> w.deck.lanes@[x].length > 0,
    ensures
        ({
            let after = w.resumed_from(now, k, stopped);
            &&& forall|x: int|
                0 <= x < TRACK_COUNT ==> {
                    let b = #[trigger] after.deck.lanes@[x];
                    if x >= k && stopped[x] {
                        plays_its_loop(w.deck.lanes@[x], b)
                    } else {
                        b == w.deck.lanes@[x]
                    }
                }
            &&& after.deck == (Deck { lanes: after.deck.lanes, ..w.deck })
            &&& after.jobs == w.jobs
            &&& after.clock == w.clock
            &&& after.said == w.said
            &&& after.fx == w.fx
        }),
    decreases TRACK_COUNT - k,
{
    reveal(World::resumed);
    if k < TRACK_COUNT {
        let v = if stopped[k] {
            w.resumed(now, k, false)
        } else {
            w
        };
        assert forall|x: int| 0 <= x < TRACK_COUNT && x != k implies #[trigger] v.deck.lanes@[x] == w.deck.lanes@[x] by {}
        lemma_resumed_from(v, now, k + 1, stopped);
        let after = w.resumed_from(now, k, stopped);
        assert(after == v.resumed_from(now, k + 1, stopped));
        assert forall|x: int| 0 <= x < TRACK_COUNT implies ({
            let b = #[trigger] after.deck.lanes@[x];
            if x >= k && stopped[x] {
                plays_its_loop(w.deck.lanes@[x], b)
            } else {
                b == w.deck.lanes@[x]
            }
        }) by {
            if x != k {
                assert(v.deck.lanes@[x] == w.deck.lanes@[x]);
            }
        }
    }
}

/// PLAY ALL plays every STOPPED lane, and touches no other: from the top where nothing plays or records, else in
/// phase with what does.
pub proof fn law_play_all_plays_every_stopped_lane(w: World, now: Frame, align: Frame, i: int, bars: int)
    requires
        bars >= 1,
        w.deck.master == bars * w.fpb(),
        w.inv(now),
        all_rest(w.jobs),
        0 <= i < TRACK_COUNT,
        w.lane(i).state == LaneState::Stopped,
    ensures
        ({
            let after = w.commanded(now, align, Command::PlayAll);
            let idle = w.deck.rec is None && forall|k: int|
                0 <= k < TRACK_COUNT ==> (#[trigger] w.deck.lanes@[k]).state != LaneState::Playing;
            &&& w.command_answer(now, Command::PlayAll) == Applied::Done
            &&& forall|x: int|
                0 <= x < TRACK_COUNT ==> {
                    let b = #[trigger] after.deck.lanes@[x];
                    if w.deck.lanes@[x].state == LaneState::Stopped {
                        plays_its_loop(w.deck.lanes@[x], b)
                    } else {
                        b == w.deck.lanes@[x]
                    }
                }
            &&& after.deck.master == w.deck.master
            &&& after.deck.rec == w.deck.rec
            &&& after.jobs == w.jobs
            &&& after.said == w.said
            &&& after.fx == w.fx
            &&& idle ==> after.deck.anchor == now && beats_with(after.clock, now as int, w.deck.master as int, bars, now)
            &&& !idle ==> after.deck.anchor == w.deck.anchor && after.clock == w.clock
        }),
{
    reveal(World::lane_commanded);
    reveal(World::restarted_if_idle);
    reveal(Deck::has_playing);
    grid::lemma_bar_bounds(w.clock.bpm as int, w.deck.sample_rate as int);
    lemma_bars_of(w.deck.master as int, w.fpb(), bars);
    lemma_all_rest(w.jobs);
    w.lemma_lane(now, i);
    let stopped = w.stopped_lanes();
    assert(stopped[i]);
    let v = w.restarted_if_idle(now);
    assert forall|x: int| 0 <= x < TRACK_COUNT && #[trigger] stopped[x] implies v.deck.lanes@[x].length > 0 by {
        w.lemma_lane(now, x);
    }
    lemma_resumed_from(v, now, 0, stopped);
    assert(forall|x: int| 0 <= x < TRACK_COUNT ==> #[trigger] stopped[x] == (w.deck.lanes@[x].state == LaneState::Stopped));
}

/// PLAY ALL with nothing STOPPED does nothing.
pub proof fn law_play_all_with_nothing_stopped_does_nothing(w: World, now: Frame, align: Frame)
    requires
        forall|k: int| 0 <= k < TRACK_COUNT ==> (#[trigger] w.deck.lanes@[k]).state != LaneState::Stopped,
    ensures
        w.commanded(now, align, Command::PlayAll) == w,
        w.command_answer(now, Command::PlayAll) == Applied::Done,
{
    reveal(World::lane_commanded);
    let stopped = w.stopped_lanes();
    assert(!stopped.contains(true)) by {
        if stopped.contains(true) {
            let k = choose|k: int| 0 <= k < stopped.len() && stopped[k];
            assert(w.deck.lanes@[k].state == LaneState::Stopped);
        }
    }
}

/// A lane silent on the loop it has.
pub open spec fn is_silenced(a: Lane, b: Lane) -> bool {
    &&& b.state == LaneState::Stopped
    &&& b.stop_at is None
    &&& b.switch_at is None
    &&& b.audible.buf == a.live
    &&& b.audible.reversed == a.reversed
    &&& same_loop(a, b)
}

/// What STOP ALL makes of a lane that does not capture: a PLAYING one is silenced, now or on its frame; any other
/// is left alone.
pub open spec fn stops(a: Lane, b: Lane, at: Option<Frame>) -> bool {
    if a.state != LaneState::Playing {
        b == a
    } else if at is Some {
        b == (Lane { stop_at: at, ..a })
    } else {
        is_silenced(a, b)
    }
}

proof fn lemma_stopped_from(w: World, now: Frame, align: Frame, k: int, at: Option<Frame>)
    requires
        0 <= k <= TRACK_COUNT,
        forall|x: int| 0 <= x < TRACK_COUNT ==> !(#[trigger] w.deck.lanes@[x]).is_capturing(),
        forall|x: int|
            0 <= x < TRACK_COUNT && (#[trigger] w.deck.lanes@[x]).state == LaneState::Playing ==> w.deck.lanes@[x].length > 0,
    ensures
        ({
            let after = w.stopped_from(now, align, k, at);
            &&& forall|x: int|
                0 <= x < TRACK_COUNT ==> {
                    let b = #[trigger] after.deck.lanes@[x];
                    if x >= k {
                        stops(w.deck.lanes@[x], b, at)
                    } else {
                        b == w.deck.lanes@[x]
                    }
                }
            &&& after.deck == (Deck { lanes: after.deck.lanes, ..w.deck })
            &&& after.jobs == w.jobs
            &&& after.clock == w.clock
            &&& after.said == w.said
            &&& after.fx == w.fx
        }),
    decreases TRACK_COUNT - k,
{
    reveal(World::stopped);
    if k < TRACK_COUNT {
        let t = w.lane(k);
        let v = if t.state == LaneState::Playing {
            match at {
                Some(f) => w.with_lane(k, Lane { stop_at: Some(f), ..t }),
                None => w.stopped(now, k),
            }
        } else {
            w
        };
        assert(!w.deck.lanes@[k].is_capturing());
        assert forall|x: int| 0 <= x < TRACK_COUNT && x != k implies #[trigger] v.deck.lanes@[x] == w.deck.lanes@[x] by {}
        assert(stops(w.deck.lanes@[k], v.deck.lanes@[k], at));
        lemma_stopped_from(v, now, align, k + 1, at);
        let after = w.stopped_from(now, align, k, at);
        assert(after == v.stopped_from(now, align, k + 1, at));
        assert forall|x: int| 0 <= x < TRACK_COUNT implies ({
            let b = #[trigger] after.deck.lanes@[x];
            if x >= k {
                stops(w.deck.lanes@[x], b, at)
            } else {
                b == w.deck.lanes@[x]
            }
        }) by {
            if x != k {
                assert(v.deck.lanes@[x] == w.deck.lanes@[x]);
            }
        }
    }
}

/// STOP ALL, with nothing captured: without the loop-end stop, or while a lane waits for its own, every PLAYING
/// lane is STOPPED now; with it they all play on to the same frame, the first one where the loops start over.
pub proof fn law_stop_all_stops_every_playing_lane(w: World, now: Frame, align: Frame)
    requires
        w.inv(now),
        w.deck.rec is None,
    ensures
        ({
            let after = w.commanded(now, align, Command::StopAll);
            let waiting = exists|k: int| 0 <= k < TRACK_COUNT && (#[trigger] w.deck.lanes@[k]).stop_at is Some;
            &&& w.command_answer(now, Command::StopAll) == Applied::Done
            &&& !w.deck.loop_end_stop || waiting ==> forall|x: int|
                0 <= x < TRACK_COUNT ==> {
                    let (a, b) = (w.deck.lanes@[x], #[trigger] after.deck.lanes@[x]);
                    &&& a.state == LaneState::Playing ==> is_silenced(a, b)
                    &&& a.state != LaneState::Playing ==> b == a
                }
            &&& w.deck.loop_end_stop && !waiting ==> forall|x: int|
                0 <= x < TRACK_COUNT ==> {
                    let (a, b) = (w.deck.lanes@[x], #[trigger] after.deck.lanes@[x]);
                    &&& a.state == LaneState::Playing ==> {
                        &&& b.stop_at matches Some(at) && is_next_start(w, now, at)
                        &&& b == (Lane { stop_at: b.stop_at, ..a })
                    }
                    &&& a.state != LaneState::Playing ==> b == a
                }
            &&& same_transport(w, after)
            &&& after.said == w.said
            &&& after.fx == w.fx
        }),
{
    reveal(World::lane_commanded);
    reveal(Deck::has_stopping);
    assert forall|x: int| 0 <= x < TRACK_COUNT implies !(#[trigger] w.deck.lanes@[x]).is_capturing() && (
    w.deck.lanes@[x].state == LaneState::Playing ==> w.deck.lanes@[x].length > 0 && w.deck.master > 0) by {
        reveal(Deck::rec_ok);
        w.lemma_lane(now, x);
    }
    let at = if w.deck.loop_end_stop && !w.any_stopping() {
        Some(w.boundary(now))
    } else {
        None
    };
    lemma_stopped_from(w, now, align, 0, at);
    if w.deck.master > 0 {
        lemma_next_start(w, now);
    }
    let after = w.commanded(now, align, Command::StopAll);
    assert(after == w.stopped_from(now, align, 0, at));
}

/// What STOP ALL makes of the lanes from `k` on while a layer runs on lane `c`.
proof fn lemma_stopped_round_a_layer(w: World, now: Frame, align: Frame, k: int, at: Option<Frame>, c: int)
    requires
        0 <= k <= TRACK_COUNT,
        0 <= c < TRACK_COUNT,
        w.deck.rec is Some,
        w.deck.rec->0.lane == c,
        w.deck.rec->0.roll is None,
        w.deck.rec->0.end is None,
        w.deck.rec->0.align > 0,
        deck::kept(now + w.deck.rec->0.align),
        w.lane(c).state == LaneState::Overdubbing,
        w.lane(c).stop_at is None,
        !w.lane(c).armed,
        !w.lane(c).auto_armed,
        forall|x: int| 0 <= x < TRACK_COUNT && x != c ==> !(#[trigger] w.deck.lanes@[x]).is_capturing(),
        forall|x: int|
            0 <= x < TRACK_COUNT && (#[trigger] w.deck.lanes@[x]).state == LaneState::Playing ==> w.deck.lanes@[x].length > 0,
    ensures
        ({
            let after = w.stopped_from(now, align, k, at);
            let r = w.deck.rec->0;
            &&& forall|x: int|
                0 <= x < TRACK_COUNT ==> {
                    let b = #[trigger] after.deck.lanes@[x];
                    if x >= k && x != c {
                        stops(w.deck.lanes@[x], b, at)
                    } else {
                        b == w.deck.lanes@[x]
                    }
                }
            &&& after.deck.rec == (if k <= c {
                Some(deck::Recorder { stop_playback: true, end: Some((now + r.align) as Frame), ..r })
            } else {
                Some(r)
            })
            &&& after.deck == (Deck { lanes: after.deck.lanes, rec: after.deck.rec, ..w.deck })
            &&& after.jobs == w.jobs
            &&& after.clock == w.clock
        }),
    decreases TRACK_COUNT - k,
{
    if k < TRACK_COUNT && k != c {
        reveal(World::stopped);
        let t = w.lane(k);
        let v = if t.state == LaneState::Playing {
            match at {
                Some(f) => w.with_lane(k, Lane { stop_at: Some(f), ..t }),
                None => w.stopped(now, k),
            }
        } else {
            w
        };
        assert(!w.deck.lanes@[k].is_capturing());
        assert forall|x: int| 0 <= x < TRACK_COUNT && x != k implies #[trigger] v.deck.lanes@[x] == w.deck.lanes@[x] by {}
        assert(stops(w.deck.lanes@[k], v.deck.lanes@[k], at));
        lemma_stopped_round_a_layer(v, now, align, k + 1, at, c);
        let after = w.stopped_from(now, align, k, at);
        assert(after == v.stopped_from(now, align, k + 1, at));
        assert forall|x: int| 0 <= x < TRACK_COUNT implies ({
            let b = #[trigger] after.deck.lanes@[x];
            if x >= k && x != c {
                stops(w.deck.lanes@[x], b, at)
            } else {
                b == w.deck.lanes@[x]
            }
        }) by {
            if x != k {
                assert(v.deck.lanes@[x] == w.deck.lanes@[x]);
            }
        }
    } else if k == c {
        lemma_layer_told(w, now, align, c);
        let v = w.play_stopped(now, align, c);
        lemma_stopped_past_a_layer(v, now, align, c + 1, at, c);
        assert(w.stopped_from(now, align, k, at) == v.stopped_from(now, align, c + 1, at));
    }
}

/// PLAY/STOP on a layer ends its window at the press, the input's delay later.
proof fn lemma_layer_told(w: World, now: Frame, align: Frame, c: int)
    requires
        0 <= c < TRACK_COUNT,
        w.deck.rec is Some,
        w.deck.rec->0.lane == c,
        w.deck.rec->0.roll is None,
        w.deck.rec->0.end is None,
        w.deck.rec->0.align > 0,
        deck::kept(now + w.deck.rec->0.align),
        w.lane(c).state == LaneState::Overdubbing,
        w.lane(c).stop_at is None,
        !w.lane(c).armed,
        !w.lane(c).auto_armed,
    ensures
        ({
            let r = w.deck.rec->0;
            w.play_stopped(now, align, c) == w.with_rec(
                Some(deck::Recorder { stop_playback: true, end: Some((now + r.align) as Frame), ..r }),
            )
        }),
{
    reveal(World::capture_stopped);
}

/// ... and of the lanes behind it.
proof fn lemma_stopped_past_a_layer(w: World, now: Frame, align: Frame, k: int, at: Option<Frame>, c: int)
    requires
        0 <= c < k <= TRACK_COUNT,
        forall|x: int| k <= x < TRACK_COUNT ==> !(#[trigger] w.deck.lanes@[x]).is_capturing(),
        forall|x: int|
            k <= x < TRACK_COUNT && (#[trigger] w.deck.lanes@[x]).state == LaneState::Playing ==> w.deck.lanes@[x].length > 0,
    ensures
        ({
            let after = w.stopped_from(now, align, k, at);
            &&& forall|x: int|
                0 <= x < TRACK_COUNT ==> {
                    let b = #[trigger] after.deck.lanes@[x];
                    if x >= k {
                        stops(w.deck.lanes@[x], b, at)
                    } else {
                        b == w.deck.lanes@[x]
                    }
                }
            &&& after.deck == (Deck { lanes: after.deck.lanes, ..w.deck })
            &&& after.jobs == w.jobs
            &&& after.clock == w.clock
        }),
    decreases TRACK_COUNT - k,
{
    if k < TRACK_COUNT {
        reveal(World::stopped);
        let t = w.lane(k);
        let v = if t.state == LaneState::Playing {
            match at {
                Some(f) => w.with_lane(k, Lane { stop_at: Some(f), ..t }),
                None => w.stopped(now, k),
            }
        } else {
            w
        };
        assert(!w.deck.lanes@[k].is_capturing());
        assert forall|x: int| 0 <= x < TRACK_COUNT && x != k implies #[trigger] v.deck.lanes@[x] == w.deck.lanes@[x] by {}
        assert(stops(w.deck.lanes@[k], v.deck.lanes@[k], at));
        lemma_stopped_past_a_layer(v, now, align, k + 1, at, c);
        let after = w.stopped_from(now, align, k, at);
        assert(after == v.stopped_from(now, align, k + 1, at));
        assert forall|x: int| 0 <= x < TRACK_COUNT implies ({
            let b = #[trigger] after.deck.lanes@[x];
            if x >= k {
                stops(w.deck.lanes@[x], b, at)
            } else {
                b == w.deck.lanes@[x]
            }
        }) by {
            if x != k {
                assert(v.deck.lanes@[x] == w.deck.lanes@[x]);
            }
        }
    }
}

/// STOP ALL ends a layer as PLAY/STOP on its lane does, and stops the other lanes as it does without one.
pub proof fn law_stop_all_ends_a_layer(w: World, now: Frame, align: Frame, c: int)
    requires
        w.inv(now),
        0 <= c < TRACK_COUNT,
        w.lane(c).state == LaneState::Overdubbing,
        w.lane(c).stop_at is None,
        w.deck.rec is Some,
        w.deck.rec->0.end is None,
        w.deck.rec->0.align > 0,
    ensures
        ({
            let after = w.commanded(now, align, Command::StopAll);
            let waiting = exists|k: int| 0 <= k < TRACK_COUNT && (#[trigger] w.deck.lanes@[k]).stop_at is Some;
            let r = w.deck.rec->0;
            &&& after.deck.rec == Some(
                deck::Recorder { stop_playback: true, end: Some((now + r.align) as Frame), ..r },
            )
            &&& after.lane(c) == w.lane(c)
            &&& !w.deck.loop_end_stop || waiting ==> forall|x: int|
                0 <= x < TRACK_COUNT && x != c && w.deck.lanes@[x].state == LaneState::Playing ==> is_silenced(
                    w.deck.lanes@[x],
                    #[trigger] after.deck.lanes@[x],
                )
            &&& w.deck.loop_end_stop && !waiting ==> forall|x: int|
                0 <= x < TRACK_COUNT && x != c && w.deck.lanes@[x].state == LaneState::Playing ==> {
                    let b = #[trigger] after.deck.lanes@[x];
                    &&& b.stop_at is Some
                    &&& is_next_start(w, now, b.stop_at->0)
                    &&& b.state == LaneState::Playing
                }
        }),
{
    reveal(World::lane_commanded);
    reveal(Deck::has_stopping);
    w.lemma_rec(now);
    w.lemma_lane(now, c);
    assert forall|x: int| 0 <= x < TRACK_COUNT implies ((#[trigger] w.deck.lanes@[x]).is_capturing() <==> x
        == w.deck.rec->0.lane) && (w.deck.lanes@[x].state == LaneState::Playing ==> w.deck.lanes@[x].length > 0) by {
        reveal(Deck::rec_ok);
        w.lemma_lane(now, x);
    }
    assert(w.deck.lanes@[c].is_capturing());
    let at = if w.deck.loop_end_stop && !w.any_stopping() {
        Some(w.boundary(now))
    } else {
        None
    };
    lemma_stopped_round_a_layer(w, now, align, 0, at, c);
    lemma_next_start(w, now);
    assert(w.commanded(now, align, Command::StopAll) == w.stopped_from(now, align, 0, at));
}

proof fn lemma_cleared_from(w: World, now: Frame, k: int)
    requires
        0 <= k <= TRACK_COUNT,
        w.deck.rec matches Some(r) ==> k <= r.lane < TRACK_COUNT,
    ensures
        ({
            let after = w.cleared_from(now, k);
            &&& forall|x: int|
                0 <= x < TRACK_COUNT ==> {
                    let b = #[trigger] after.deck.lanes@[x];
                    if x >= k {
                        is_fresh(b) && b.live == w.deck.lanes@[x].live && b.spare == w.deck.lanes@[x].spare
                    } else {
                        b == w.deck.lanes@[x]
                    }
                }
            &&& after.deck.rec is None
            &&& after.fx.len() == w.fx.len() + (TRACK_COUNT - k)
            &&& forall|x: int| 0 <= x < w.fx.len() ==> after.fx[x] == w.fx[x]
            &&& forall|x: int|
                k <= x < TRACK_COUNT ==> #[trigger] after.fx[w.fx.len() + (x - k)] == (FxAction::Reset { lane: x as u8 })
            &&& after.jobs == w.jobs
            &&& after.said == w.said
            &&& after.clock.bpm == w.clock.bpm
            &&& after.deck.loop_end_stop == w.deck.loop_end_stop
            &&& after.deck.selected == w.deck.selected
        }),
    decreases TRACK_COUNT - k,
{
    if k < TRACK_COUNT {
        let v = w.cleared_now(now, k);
        assert forall|x: int| 0 <= x < TRACK_COUNT && x != k implies #[trigger] v.deck.lanes@[x] == w.deck.lanes@[x] by {}
        assert(v.fx =~= w.fx.push(FxAction::Reset { lane: k as u8 }));
        lemma_cleared_from(v, now, k + 1);
        let after = w.cleared_from(now, k);
        assert(after == v.cleared_from(now, k + 1));
        assert forall|x: int| 0 <= x < TRACK_COUNT implies ({
            let b = #[trigger] after.deck.lanes@[x];
            if x >= k {
                is_fresh(b) && b.live == w.deck.lanes@[x].live && b.spare == w.deck.lanes@[x].spare
            } else {
                b == w.deck.lanes@[x]
            }
        }) by {
            if x != k {
                assert(v.deck.lanes@[x] == w.deck.lanes@[x]);
            }
        }
        assert forall|x: int| k <= x < TRACK_COUNT implies #[trigger] after.fx[w.fx.len() + (x - k)] == (FxAction::Reset {
            lane: x as u8,
        }) by {
            if x > k {
                assert(after.fx[v.fx.len() + (x - (k + 1))] == (FxAction::Reset { lane: x as u8 }));
            } else {
                assert(after.fx[w.fx.len() as int] == v.fx[w.fx.len() as int]);
            }
        }
    } else {
        assert(w.cleared_from(now, k) == w);
    }
}

/// CLEAR ALL leaves nothing: every lane fresh, its effects reset, nothing recording, no master, the tempo kept and
/// free.
pub proof fn law_clear_all_leaves_nothing(w: World, now: Frame, align: Frame)
    requires
        w.inv(now),
        all_rest(w.jobs),
    ensures
        ({
            let after = w.commanded(now, align, Command::ClearAll);
            &&& w.command_answer(now, Command::ClearAll) == Applied::Done
            &&& forall|x: int|
                0 <= x < TRACK_COUNT ==> is_fresh(#[trigger] after.deck.lanes@[x]) && after.deck.lanes@[x].live
                    == w.deck.lanes@[x].live && after.deck.lanes@[x].spare == w.deck.lanes@[x].spare
            &&& forall|x: int|
                0 <= x < TRACK_COUNT ==> #[trigger] after.fx[w.fx.len() + x] == (FxAction::Reset { lane: x as u8 })
            &&& after.fx.len() == w.fx.len() + TRACK_COUNT
            &&& after.deck.rec is None
            &&& after.deck.master == 0
            &&& after.deck.anchor == 0
            &&& !after.clock.locked
            &&& after.clock.bpm == w.clock.bpm
            &&& after.clock.pulse is Some
            &&& after.clock.pulse->0.free_run
            &&& after.jobs == w.jobs
            &&& after.said == w.said
        }),
{
    reveal(World::lane_commanded);
    lemma_all_rest(w.jobs);
    if w.deck.rec is Some {
        w.lemma_rec(now);
    }
    lemma_cleared_from(w, now, 0);
    let after = w.commanded(now, align, Command::ClearAll);
    assert forall|x: int| 0 <= x < TRACK_COUNT implies #[trigger] after.fx[w.fx.len() + x] == (FxAction::Reset {
        lane: x as u8,
    }) by {
        assert(w.cleared_from(now, 0).fx[w.fx.len() + (x - 0)] == (FxAction::Reset { lane: x as u8 }));
    }
}

} // verus!
