//! What a running looper does frame by frame: what it captures and where that is heard, how long the transport is
//! alive, and what the device's stop leaves.

use vstd::prelude::*;

use crate::api::{LaneState, TRACK_COUNT};
use crate::deck;
use crate::deck::{Deck, Kind, Lane, Recorder, World, BUFFER_COUNT};
use crate::float::Single;
use crate::grid;
use crate::grid::Frame;
use crate::looper::audio;
use crate::looper::commits;
use crate::looper::commits::landing;
use crate::looper::gestures::others_same;
use crate::looper::taking;
use crate::pool;

verus! {

// ── What is captured ───────────────────────────────────────────────────────────────────────────────

/// Frame `f` of the input lies in a block from `f0` on and in the recorder's window.
pub open spec fn is_captured(r: Recorder, f0: Frame, len: int, f: int) -> bool {
    &&& f0 <= f < f0 + len
    &&& r.start matches Some(s) && s <= f
    &&& r.end matches Some(e) ==> f < e
}

/// A take holds the input of its window, frame after frame from its start on: frame `f` at `f - start`, and nothing
/// else of any buffer changes.
pub proof fn law_a_take_holds_its_window<F: Fn(Single, Single) -> Single>(
    mix: F,
    w: World,
    now: Frame,
    f0: Frame,
    input: Seq<Single>,
    before: Seq<Seq<Single>>,
    after: Seq<Seq<Single>>,
    p: int,
)
    requires
        w.inv(now),
        w.deck.rec is Some,
        w.deck.rec->0.kind == Kind::Take,
        !w.rec_lane().auto_armed,
        before.len() == BUFFER_COUNT,
        forall|b: int| 0 <= b < BUFFER_COUNT ==> (#[trigger] before[b]).len() == w.deck.capacity,
        audio::taped(mix, w, f0, input, before, after),
        0 <= p < w.deck.capacity,
    ensures
        ({
            let r = w.deck.rec->0;
            let live = w.rec_lane().live as int;
            let f = r.start->0 + p;
            &&& after.len() == BUFFER_COUNT
            &&& after[live].len() == w.deck.capacity
            &&& after[live][p] == (if is_captured(r, f0, input.len() as int, f) {
                input[f - f0]
            } else {
                before[live][p]
            })
            &&& forall|b: int| 0 <= b < BUFFER_COUNT && b != live ==> #[trigger] after[b] == before[b]
        }),
{
    w.lemma_rec(now);
    let r = w.deck.rec->0;
    let live = w.rec_lane().live as int;
    assert(0 <= live < BUFFER_COUNT) by {
        reveal(Deck::pool_ok);
        assert(0 <= w.deck.owner(r.lane as int) < BUFFER_COUNT);
    }
    assert(before[live].len() == w.deck.capacity);
}

/// A layer no longer than its loop: each frame of it is mixed into its own position, once, and no other position
/// changes.
proof fn lemma_layered<F: Fn(Single, Single) -> Single>(
    mix: F,
    before: Seq<Single>,
    after: Seq<Single>,
    input: Seq<Single>,
    pos: int,
    master: int,
    q: int,
)
    requires
        pool::layered(mix, before, after, input, pos, master),
        0 < master <= before.len(),
        input.len() <= master,
        0 <= q < before.len(),
    ensures
        after.len() == before.len(),
        forall|d: int| 0 <= d < input.len() && q == #[trigger] ((pos + d) % master) ==> call_ensures(
            mix,
            (before[q], input[d]),
            after[q],
        ),
        (forall|d: int| 0 <= d < input.len() ==> q != #[trigger] ((pos + d) % master)) ==> after[q] == before[q],
    decreases input.len(),
{
    if input.len() > 0 {
        let n = input.len() - 1;
        let p = (pos + n) % master;
        let head = input.drop_last();
        let (mid, y) = choose|mid: Seq<Single>, y: Single|
            #![trigger mid.update(p, y)]
            {
                &&& pool::layered(mix, before, mid, input.drop_last(), pos, master)
                &&& call_ensures(mix, (mid[p], input.last()), y)
                &&& after == mid.update(p, y)
            };
        vstd::arithmetic::div_mod::lemma_mod_bound(pos + n, master);
        lemma_layered(mix, before, mid, head, pos, master, q);
        if q == p {
            assert forall|d: int| 0 <= d < n implies q != #[trigger] ((pos + d) % master) by {
                if (pos + d) % master == (pos + n) % master {
                    crate::jobs::lemma_same_residue(pos + d, pos + n, master);
                }
            }
            assert forall|d: int| 0 <= d < head.len() implies q != #[trigger] ((pos + d) % master) by {}
            assert(mid[q] == before[q]);
            assert forall|d: int| 0 <= d < input.len() && q == #[trigger] ((pos + d) % master) implies call_ensures(
                mix,
                (before[q], input[d]),
                after[q],
            ) by {
                assert(d == n);
            }
        } else {
            assert(after[q] == mid[q]);
            assert forall|d: int| 0 <= d < input.len() && q == #[trigger] ((pos + d) % master) implies call_ensures(
                mix,
                (before[q], input[d]),
                after[q],
            ) by {
                assert(d < n);
                assert(head[d] == input[d]);
            }
            if forall|d: int| 0 <= d < input.len() ==> q != #[trigger] ((pos + d) % master) {
                assert forall|d: int| 0 <= d < head.len() implies q != #[trigger] ((pos + d) % master) by {}
            }
        }
    }
}

/// An overdub mixes each frame of its window into the position of the loop that was heard when it was played, the
/// input's delay before.
pub proof fn law_a_layer_lands_where_it_was_heard<F: Fn(Single, Single) -> Single>(
    mix: F,
    w: World,
    now: Frame,
    f0: Frame,
    input: Seq<Single>,
    before: Seq<Seq<Single>>,
    after: Seq<Seq<Single>>,
    f: int,
)
    requires
        w.inv(now),
        w.deck.rec is Some,
        w.deck.rec->0.kind == Kind::Overdub,
        before.len() == BUFFER_COUNT,
        forall|b: int| 0 <= b < BUFFER_COUNT ==> (#[trigger] before[b]).len() == w.deck.capacity,
        audio::taped(mix, w, f0, input, before, after),
        input.len() <= w.deck.master,
        is_captured(w.deck.rec->0, f0, input.len() as int, f),
    ensures
        ({
            let r = w.deck.rec->0;
            let live = w.rec_lane().live as int;
            let p = w.deck.heard(r.lane as int, f - r.align);
            &&& w.rec_lane().audible.buf == live
            &&& p == (f - r.align - w.deck.anchor) % (w.deck.master as int)
            &&& call_ensures(mix, (before[live][p], input[f - f0]), after[live][p])
            &&& forall|b: int| 0 <= b < BUFFER_COUNT && b != live ==> #[trigger] after[b] == before[b]
        }),
{
    w.lemma_rec(now);
    let r = w.deck.rec->0;
    let i = r.lane as int;
    w.lemma_lane(now, i);
    let live = w.rec_lane().live as int;
    let master = w.deck.master as int;
    assert(0 <= live < BUFFER_COUNT) by {
        reveal(Deck::pool_ok);
        assert(0 <= w.deck.owner(i) < BUFFER_COUNT);
    }
    assert(before[live].len() == w.deck.capacity);
    let (lo, hi) = w.window(f0, input.len() as int);
    let part = input.subrange(lo - f0, hi - f0);
    let x = lo - r.align - w.deck.anchor;
    let pos = x % master;
    let p = (f - r.align - w.deck.anchor) % master;
    let d = f - lo;
    vstd::arithmetic::div_mod::lemma_mod_bound(x + d, master);
    assert((pos + d) % master == p) by {
        vstd::arithmetic::div_mod::lemma_add_mod_noop(x, d, master);
        vstd::arithmetic::div_mod::lemma_add_mod_noop(pos, d, master);
        vstd::arithmetic::div_mod::lemma_mod_twice(x, master);
    }
    lemma_layered(mix, before[live], after[live], part, pos, master, p);
    assert(part[d] == input[f - f0]);
    vstd::arithmetic::div_mod::lemma_small_mod(p as nat, master as nat);
}

/// What was captured is counted: a take by the frames from its start on, a layer by the positions it has reached,
/// one loop at most.
pub proof fn law_what_is_captured_is_counted(w: World, now: Frame, f0: Frame, len: int)
    requires
        w.inv(now),
        w.deck.rec is Some,
        w.deck.rec->0.start is Some,
        !w.rec_lane().auto_armed,
        0 < len <= grid::LOOP_LIMIT,
        grid::near(f0 as int),
    ensures
        ({
            let after = w.captured(f0, len);
            let r = w.deck.rec->0;
            let i = r.lane as int;
            let last = f0 + len - 1;
            &&& r.kind == Kind::Take && is_captured(r, f0, len, last) && w.lane(i).written <= last + 1 - r.start->0
                ==> after.lane(i).written == last + 1 - r.start->0
            &&& r.kind == Kind::Overdub && is_captured(r, f0, len, last) && r.start->0 <= f0
                ==> after.deck.rec->0.summed == grid::min_int(r.summed + len, w.deck.master as int)
            &&& (forall|f: int| !#[trigger] is_captured(r, f0, len, f)) ==> after == w
            &&& others_same(w, after, i)
            &&& after.lane(i) == (Lane { written: after.lane(i).written, ..w.lane(i) })
            &&& after.deck.rec == Some(Recorder { summed: after.deck.rec->0.summed, ..r })
        }),
{
    w.lemma_rec(now);
    let r = w.deck.rec->0;
    w.lemma_lane(now, r.lane as int);
    if w.captures(f0, len) {
        let lo = w.window(f0, len).0;
        assert(is_captured(r, f0, len, lo));
    }
}

// ── What is heard ──────────────────────────────────────────────────────────────────────────────────

/// A lane sounds while it plays, and while it is layered unless PLAY/STOP has ended that; a lane that records,
/// stands still or is empty is silent.
pub proof fn law_a_lane_sounds_while_it_plays(w: World, i: int)
    ensures
        w.lane(i).state == LaneState::Playing ==> w.sounding(i),
        w.lane(i).state == LaneState::Empty || w.lane(i).state == LaneState::Recording || w.lane(i).state
            == LaneState::Stopped ==> !w.sounding(i),
        w.lane(i).state == LaneState::Overdubbing && (w.deck.rec matches Some(r) ==> r.lane != i || !r.stop_playback)
            ==> w.sounding(i),
        w.lane(i).state == LaneState::Overdubbing && (w.deck.rec matches Some(r) && r.lane == i && r.stop_playback)
            ==> !w.sounding(i),
{
}

/// Until when a lane keeps the metronome going: for ever while it records or plays on, up to its loop end while
/// that is pending, not at all while it listens, stands still, is empty, or ends over the loops.
pub proof fn law_a_lane_is_alive_while_it_sounds_or_records(w: World, i: int)
    ensures
        ({
            let t = w.lane(i);
            let ending = w.deck.rec is Some && w.deck.rec->0.lane == i && w.deck.rec->0.stop_playback && w.deck.master > 0;
            &&& ending ==> w.alive_until(i) is None
            &&& !ending && t.state == LaneState::Playing && t.stop_at is None ==> w.alive_until(i) == Some(i64::MAX)
            &&& !ending && t.state == LaneState::Playing && t.stop_at is Some ==> w.alive_until(i) == t.stop_at
            &&& !ending && t.state == LaneState::Overdubbing ==> w.alive_until(i) == Some(i64::MAX)
            &&& !ending && t.state == LaneState::Recording && !t.auto_armed ==> w.alive_until(i) == Some(i64::MAX)
            &&& t.state == LaneState::Recording && t.auto_armed ==> w.alive_until(i) is None
            &&& t.state == LaneState::Empty || t.state == LaneState::Stopped ==> w.alive_until(i) is None
        }),
{
}

proof fn lemma_alive_before(w: World, k: int)
    requires
        0 <= k,
    ensures
        w.alive_before(k) matches Some(f) ==> exists|i: int| 0 <= i < k && #[trigger] w.alive_until(i) == Some(f),
        forall|i: int|
            0 <= i < k && (#[trigger] w.alive_until(i)) is Some ==> w.alive_before(k) is Some && w.alive_until(i)->0
                <= w.alive_before(k)->0,
    decreases k,
{
    if k > 0 {
        lemma_alive_before(w, k - 1);
        if w.alive_before(k - 1) is Some {
            let f = w.alive_before(k - 1)->0;
            let i = choose|i: int| 0 <= i < k - 1 && #[trigger] w.alive_until(i) == Some(f);
            assert(w.alive_until(i) == Some(f));
        }
        assert(w.alive_until(k - 1) == w.alive_until(k - 1));
    }
}

/// The transport is alive as long as the lane that is alive the longest.
pub proof fn law_the_transport_lives_as_long_as_a_lane(w: World)
    ensures
        w.transport_end() matches Some(f) ==> exists|i: int| 0 <= i < TRACK_COUNT && #[trigger] w.alive_until(i) == Some(f),
        forall|i: int|
            0 <= i < TRACK_COUNT && (#[trigger] w.alive_until(i)) is Some ==> w.transport_end() is Some && w.alive_until(
                i,
            )->0 <= w.transport_end()->0,
{
    lemma_alive_before(w, TRACK_COUNT as int);
}

// ── The device stopped ─────────────────────────────────────────────────────────────────────────────

/// A take that has retained nothing, or was only armed, is dropped when the device stops: its lane is EMPTY and the
/// recorder free.
#[verifier::rlimit(40)]
pub proof fn law_a_stopped_device_drops_an_empty_take(w: World, now: Frame, i: int)
    requires
        w.inv(now),
        w.deck.rec is Some,
        w.deck.rec->0.lane == i,
        w.deck.rec->0.kind == Kind::Take,
        w.lane(i).length == 0,
        w.lane(i).armed || w.lane(i).auto_armed || w.lane(i).written == 0 && !(w.deck.rec->0.roll is Some
            && w.deck.rec->0.roll->0.kept),
    ensures
        ({
            let after = w.punched_out(now);
            &&& after.lane(i).state == LaneState::Empty
            &&& after.lane(i).length == 0
            &&& after.deck.rec is None
            &&& others_same(w, after, i)
            &&& after.said == w.said
            &&& w.deck.master == 0 ==> !after.clock.locked
        }),
{
    reveal(World::punched_out);
    reveal(World::stopped);
    w.lemma_rec(now);
    w.lemma_lane(now, i);
}

/// A layer that has reached no position is given up when the device stops, its lane as it was before, undo target
/// and all.
#[verifier::rlimit(40)]
pub proof fn law_a_stopped_device_gives_an_empty_layer_up(w: World, now: Frame, i: int)
    requires
        w.inv(now),
        w.deck.rec is Some,
        w.deck.rec->0.lane == i,
        w.deck.rec->0.kind == Kind::Overdub,
        w.deck.rec->0.summed == 0,
    ensures
        ({
            let after = w.punched_out(now);
            let (r, a, b) = (w.deck.rec->0, w.lane(i), after.lane(i));
            &&& b.state == landing(r)
            &&& b.live == a.live
            &&& b.spare == w.deck.free
            &&& after.deck.free == a.spare
            &&& b.undo_valid == r.prev_undo_valid
            &&& b.spare_reversed == r.prev_spare_reversed
            &&& b.length == a.length
            &&& after.deck.rec is None
            &&& others_same(w, after, i)
            &&& after.deck.master == w.deck.master
            &&& after.clock == w.clock
        }),
{
    reveal(World::punched_out);
    reveal(World::layer_discarded);
    w.lemma_rec(now);
    w.lemma_lane(now, i);
}

/// A layer that has reached the loop is kept when the device stops.
#[verifier::rlimit(40)]
pub proof fn law_a_stopped_device_keeps_a_layer(w: World, now: Frame, i: int)
    requires
        w.inv(now),
        w.deck.rec is Some,
        w.deck.rec->0.lane == i,
        w.deck.rec->0.kind == Kind::Overdub,
        !w.deck.rec->0.damaged,
        w.deck.rec->0.summed > 0,
    ensures
        ({
            let after = w.punched_out(now);
            &&& after.lane(i) == (Lane { state: landing(w.deck.rec->0), auto_armed: false, ..w.lane(i) })
            &&& after.deck.rec is None
            &&& after.deck.free == w.deck.free
            &&& others_same(w, after, i)
            &&& after.deck.master == w.deck.master
            &&& after.clock == w.clock
            &&& after.jobs == w.jobs
        }),
{
    reveal(World::punched_out);
    reveal(World::finished);
    reveal(Deck::is_blank);
    w.lemma_rec(now);
    w.lemma_lane(now, i);
    let rec = Recorder { roll: None, handoff: None, ..w.deck.rec->0 };
    let v = w.with_rec(Some(Recorder { handoff: None, ..w.deck.rec->0 })).window_cut(rec, now);
    let c = v.closed(now, i, v.deck.rec->0).released(i);
    assert(c.deck.lanes@[i].state != LaneState::Empty);
    assert(!c.blank());
}

/// A clean first take is committed with what it has when the device stops: the completed bars of what was recorded
/// up to then, one at least; it is handed on to nobody.
#[verifier::rlimit(40)]
pub proof fn law_a_stopped_device_commits_a_first_take(w: World, now: Frame, i: int, b: int)
    requires
        w.inv(now),
        w.deck.rec is Some,
        w.deck.rec->0.lane == i,
        w.deck.rec->0.kind == Kind::Take,
        !w.deck.rec->0.damaged,
        w.deck.rec->0.roll is None,
        !w.lane(i).armed,
        !w.lane(i).auto_armed,
        w.lane(i).written > 0,
        w.deck.master == 0,
        b >= 1,
        b * w.fpb() <= w.deck.capacity,
        ({
            let r = w.deck.rec->0;
            let raw = grid::min_int(w.lane(i).written as int, grid::min_int(r.end->0 as int, now as int) - r.start->0);
            ||| b * w.fpb() <= raw < b * w.fpb() + w.fpb()
            ||| b == 1 && raw < w.fpb()
        }),
    ensures
        ({
            let after = w.punched_out(now);
            &&& after.deck.master == b * w.fpb()
            &&& after.lane(i).length == b * w.fpb()
            &&& after.lane(i).live == w.lane(i).live
            &&& after.lane(i).state == landing(w.deck.rec->0)
            &&& after.deck.rec is None
            &&& after.clock.locked
        }),
{
    reveal(World::punched_out);
    w.lemma_rec(now);
    w.lemma_lane(now, i);
    let rec = Recorder { roll: None, handoff: None, ..w.deck.rec->0 };
    let e = grid::min_int(rec.end->0 as int, now as int) as Frame;
    let cut = Recorder { end: Some(e), ..rec };
    w.lemma_rec_changed(cut, now);
    let v = w.with_rec(Some(cut));
    assert(v == w.with_rec(Some(Recorder { handoff: None, ..w.deck.rec->0 })).window_cut(rec, now));
    taking::lemma_first_master(v, now, 0, i, b);
    taking::lemma_finished_state(v, now, 0, i);
}

/// A later take over whole-bar loops, no longer than two of them, is laid on its lane when the device stops; the loops
/// are left alone and nothing is handed on.
#[verifier::rlimit(40)]
pub proof fn law_a_stopped_device_lays_a_later_take(w: World, now: Frame, i: int)
    requires
        w.inv(now),
        w.deck.rec is Some,
        w.deck.rec->0.lane == i,
        w.deck.rec->0.kind == Kind::Take,
        !w.deck.rec->0.damaged,
        w.deck.rec->0.roll is None,
        !w.lane(i).armed,
        !w.lane(i).auto_armed,
        w.lane(i).written > 0,
        w.deck.master > 0,
        w.deck.rec->0.end->0 - w.deck.rec->0.start->0 < 2 * w.deck.master,
    ensures
        ({
            let after = w.punched_out(now);
            &&& after.lane(i).state == landing(w.deck.rec->0)
            &&& after.lane(i).live == w.lane(i).live
            &&& after.lane(i).length == w.deck.master
            &&& after.deck.master == w.deck.master
            &&& after.deck.anchor == w.deck.anchor
            &&& after.deck.rec is None
            &&& after.clock == w.clock
            &&& others_same(w, after, i)
        }),
{
    reveal(World::punched_out);
    w.lemma_rec(now);
    w.lemma_lane(now, i);
    let rec = Recorder { roll: None, handoff: None, ..w.deck.rec->0 };
    let e = grid::min_int(rec.end->0 as int, now as int) as Frame;
    let cut = Recorder { end: Some(e), ..rec };
    w.lemma_rec_changed(cut, now);
    let v = w.with_rec(Some(cut));
    assert(v == w.with_rec(Some(Recorder { handoff: None, ..w.deck.rec->0 })).window_cut(rec, now));
    commits::lemma_take_kept(v, now, 0, i);
}

/// A roll over the loops that has a pass kept plays that pass when the device stops.
#[verifier::rlimit(40)]
pub proof fn law_a_stopped_device_keeps_the_kept_pass(w: World, now: Frame, i: int)
    requires
        w.inv(now),
        w.deck.rec is Some,
        w.deck.rec->0.lane == i,
        w.deck.rec->0.kind == Kind::Take,
        w.deck.rec->0.roll is Some,
        w.deck.rec->0.roll->0.kept,
        !w.lane(i).armed,
        !w.lane(i).auto_armed,
        w.deck.master > 0,
    ensures
        ({
            let after = w.punched_out(now);
            &&& after.lane(i).state == landing(w.deck.rec->0)
            &&& after.lane(i).live == w.deck.free
            &&& after.deck.free == w.lane(i).live
            &&& after.lane(i).length == w.deck.master
            &&& after.deck.rec is None
            &&& after.deck.master == w.deck.master
        }),
{
    reveal(World::punched_out);
    w.lemma_rec(now);
    w.lemma_lane(now, i);
    let r = Recorder { handoff: None, ..w.deck.rec->0 };
    w.lemma_rec_changed(r, now);
    commits::lemma_pass_kept(w.with_rec(Some(r)), now, 0, i);
}

// ── Beats and gaps ─────────────────────────────────────────────────────────────────────────────────

/// A beat that fires is said on its frame as it fired, and the clock is past it.
pub proof fn law_a_beat_is_said_as_it_fired(w: World, now: Frame, rounds: nat)
    requires
        rounds > 0,
    ensures
        ({
            let beat = w.clock.due_beat(now, w.transport_end());
            let after = w.beaten(now, 1);
            &&& beat is None ==> w.beaten(now, rounds).said == w.said
            &&& beat matches Some(b) ==> after.said == w.said.push(
                crate::api::Event::Beat {
                    frame: now,
                    beat_in_bar: b.beat_in_bar,
                    count_left: b.count_left,
                    clicked: b.clicked,
                },
            )
            &&& after.clock == w.clock.after_beat(now, w.transport_end())
            &&& after.deck == w.deck
            &&& after.jobs == w.jobs
        }),
{
    let w1 = w.with_clock(w.clock.after_beat(now, w.transport_end()));
    assert(w.beaten(now, 1) == (match w.clock.due_beat(now, w.transport_end()) {
        None => w1,
        Some(beat) => w1.say(
            crate::api::Event::Beat {
                frame: now,
                beat_in_bar: beat.beat_in_bar,
                count_left: beat.count_left,
                clicked: beat.clicked,
            },
        ).beaten(now, 0),
    }));
}

/// A gap while AUTO listens makes it start over: what it heard before cannot join what it hears after. With nothing
/// captured a gap changes nothing.
pub proof fn law_a_gap_makes_auto_start_over(w: World, f: Frame)
    ensures
        w.deck.rec is None ==> w.gapped(f) == w,
        w.deck.rec is Some && w.lane(w.deck.rec->0.lane as int).auto_armed ==> {
            let after = w.gapped(f);
            &&& after == (World { ear: after.ear, ..w })
            &&& after.ear.heard.len() == 0
            &&& after.ear.squares.len() == 0
            &&& after.ear.lookback == w.ear.lookback
            &&& after.ear.analysis == w.ear.analysis
        },
{
}

} // verus!
