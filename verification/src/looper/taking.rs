//! What recording and layering are for: where a capture starts and ends, what it makes of the loops, and where
//! what was played is heard.

use vstd::prelude::*;

use crate::api::{Command, LaneState, TRACK_COUNT};
use crate::deck;
use crate::deck::{Applied, Deck, Kind, Recorder, World};
use crate::grid;
use crate::grid::Frame;
use crate::keeps;
use crate::looper::changes::beats_with;
use crate::looper::gestures;

verus! {

// ── How a capture ends ─────────────────────────────────────────────────────────────────────────────

/// A capture runs on lane `i`, past its count-in or its arm.
pub open spec fn captures_on(w: World, i: int) -> bool {
    &&& 0 <= i < TRACK_COUNT
    &&& w.lane(i).state == LaneState::Recording || w.lane(i).state == LaneState::Overdubbing
    &&& !w.lane(i).armed
    &&& !w.lane(i).auto_armed
}

/// The recorder's window on lane `i` is over, clean, and it is not rolling.
pub open spec fn window_over(w: World, now: Frame, i: int) -> bool {
    &&& w.inv(now)
    &&& 0 <= i < TRACK_COUNT
    &&& !w.lane(i).auto_armed
    &&& w.deck.rec matches Some(r) && {
        &&& r.lane == i
        &&& !r.damaged
        &&& r.roll is None
        &&& r.end matches Some(e) && e <= now
    }
}

/// A capture that commits lands as its recorder was told to.
#[verifier::rlimit(40)]
proof fn lemma_committed_state(w: World, now: Frame, i: int)
    requires
        w.inv(now),
        0 <= i < TRACK_COUNT,
        w.deck.rec is Some,
        w.deck.rec->0.lane == i,
        !w.deck.rec->0.damaged,
        !w.lane(i).auto_armed,
    ensures
        ({
            let rec = w.deck.rec->0;
            w.closed(now, i, rec).lane(i).state == (if rec.stop_playback {
                LaneState::Stopped
            } else {
                LaneState::Playing
            })
        }),
{
    let rec = w.deck.rec->0;
    w.lemma_lane(now, i);
    w.lemma_rec(now);
    if rec.kind == Kind::Take {
        reveal(World::take_laid);
        reveal(World::multiplied);
        reveal(World::master_made);
        let raw = grid::min_int(w.lane(i).written as int, rec.end->0 - rec.start->0) as Frame;
        if w.multiplies(raw) {
            let v = w.multiplied(now, rec.start->0 - rec.align, w.loops_of(raw));
            let laid = v.take_laid(
                now,
                i,
                rec.stop_playback,
                grid::TakeFill::later_fill(raw, w.fpb() as Frame, v.deck.master),
            );
            assert forall|j: int|
                0 <= j < TRACK_COUNT && j != i && (#[trigger] laid.deck.lanes@[j]).is_committed() implies 0
                < laid.deck.lanes@[j].period by {
                w.lemma_lane(now, j);
            }
            laid.lemma_lengthened_calm(now, 0, i);
        }
    }
}

/// ... once the recorder is released and handed on, if it is.
#[verifier::rlimit(40)]
pub proof fn lemma_finished_state(w: World, now: Frame, align: Frame, i: int)
    requires
        w.inv(now),
        0 <= i < TRACK_COUNT,
        w.deck.rec is Some,
        w.deck.rec->0.lane == i,
        !w.deck.rec->0.damaged,
        !w.lane(i).auto_armed,
    ensures
        w.finished(now, align, i).lane(i).state == (if w.deck.rec->0.stop_playback {
            LaneState::Stopped
        } else {
            LaneState::Playing
        }),
        w.finished(now, align, i).deck.rec matches Some(r) ==> r.lane != i,
{
    reveal(World::finished);
    reveal(World::recording);
    lemma_committed_state(w, now, i);
    w.lemma_rec(now);
}

proof fn lemma_edge_state(w: World, now: Frame, align: Frame, i: int)
    requires
        window_over(w, now, i),
    ensures
        w.edge_due(now, align).lane(i).state == (if w.deck.rec->0.stop_playback {
            LaneState::Stopped
        } else {
            LaneState::Playing
        }),
{
    reveal(World::edge_due);
    w.lemma_opened(now);
    lemma_finished_state(w.opened(now), now, align, i);
}

/// PLAY/STOP on a lane that captures ends the capture, and the lane is STOPPED once its window is over: at once,
/// or on the frame the window closes, whatever happened in between.
pub proof fn law_play_stop_on_a_capture_lands_stopped(
    w: World,
    now: Frame,
    align: Frame,
    i: int,
    later: World,
    at: Frame,
    align2: Frame,
)
    requires
        w.inv(now),
        captures_on(w, i),
        w.lane(i).stop_at is None,
        !w.deck.rec->0.damaged,
    ensures
        ({
            let after = w.commanded(now, align, Command::PlayStop(i as u8));
            &&& w.command_answer(now, Command::PlayStop(i as u8)) == Applied::Done
            &&& after.lane(i).state == LaneState::Stopped || after.deck.rec is Some && after.deck.rec->0.lane == i
                && after.deck.rec->0.roll is None && after.deck.rec->0.end is Some
            &&& after.deck.rec is Some && after.deck.rec->0.lane == i && window_over(later, at, i)
                && later.deck.rec->0.stop_playback == after.deck.rec->0.stop_playback ==> later.edge_due(at, align2).lane(i).state
                == LaneState::Stopped
        }),
{
    reveal(World::lane_commanded);
    w.lemma_lane(now, i);
    w.lemma_rec(now);
    let told = Recorder { stop_playback: true, ..w.deck.rec->0 };
    w.lemma_rec_changed(told, now);
    lemma_stop_gesture(w.with_rec(Some(told)), now, align, i);
    if window_over(later, at, i) {
        lemma_edge_state(later, at, align2, i);
    }
}

/// REC/DUB on a lane that captures, started by REC/DUB, ends the capture, and the lane plays once its window is
/// over.
pub proof fn law_rec_on_a_capture_lands_playing(
    w: World,
    now: Frame,
    align: Frame,
    i: int,
    later: World,
    at: Frame,
    align2: Frame,
)
    requires
        w.inv(now),
        captures_on(w, i),
        w.lane(i).stop_at is None,
        !w.deck.rec->0.damaged,
        !w.deck.rec->0.stop_playback,
    ensures
        ({
            let after = w.commanded(now, align, Command::RecDub(i as u8));
            &&& w.command_answer(now, Command::RecDub(i as u8)) == Applied::Done
            &&& after.lane(i).state == LaneState::Playing || after.deck.rec is Some && after.deck.rec->0.lane == i
                && after.deck.rec->0.roll is None && after.deck.rec->0.end is Some
            &&& after.deck.rec is Some && after.deck.rec->0.lane == i && window_over(later, at, i)
                && later.deck.rec->0.stop_playback == after.deck.rec->0.stop_playback ==> later.edge_due(at, align2).lane(i).state
                == LaneState::Playing
        }),
{
    reveal(World::lane_commanded);
    w.lemma_lane(now, i);
    w.lemma_rec(now);
    lemma_stop_gesture(w, now, align, i);
    if window_over(later, at, i) {
        lemma_edge_state(later, at, align2, i);
    }
}

/// A stop gesture: the capture is over, or its recorder has an end and goes on to it.
#[verifier::rlimit(40)]
proof fn lemma_stop_gesture(w: World, now: Frame, align: Frame, i: int)
    requires
        w.inv(now),
        captures_on(w, i),
        !w.deck.rec->0.damaged,
    ensures
        ({
            let after = w.capture_stopped(now, align, i);
            let done = if w.deck.rec->0.stop_playback {
                LaneState::Stopped
            } else {
                LaneState::Playing
            };
            ||| after.lane(i).state == done && (after.deck.rec matches Some(r) ==> r.lane != i)
            ||| after.deck.rec is Some && after.deck.rec->0.lane == i && after.deck.rec->0.roll is None
                && after.deck.rec->0.end is Some && after.deck.rec->0.stop_playback == w.deck.rec->0.stop_playback
                && after.lane(i) == w.lane(i)
        }),
{
    reveal(World::capture_stopped);
    w.lemma_lane(now, i);
    w.lemma_rec(now);
    let r0 = w.deck.rec->0;
    let plan = w.retake_plan(now, r0);
    let rec = Recorder { roll: None, ..r0 };
    if r0.roll is Some && plan == grid::RetakeStop::KeepLast {
        w.lemma_pass_approved(now, i);
        lemma_finished_state(w.pass_approved(i, rec), now, align, i);
    } else {
        let end = if r0.roll is Some && plan == grid::RetakeStop::FinishPass {
            rec.end->0
        } else {
            w.stop_target(now, w.lane(i), rec)
        };
        w.lemma_stop_target(now, i);
        let v = w.window_cut(rec, end);
        if v.deck.rec->0.end->0 <= now {
            if r0.roll is Some && plan == grid::RetakeStop::FinishPass {
                w.lemma_rec_changed(rec, now);
                assert(v == w.with_rec(Some(rec)));
            }
            lemma_finished_state(v, now, align, i);
        }
    }
}

// ── Where a capture ends ───────────────────────────────────────────────────────────────────────────

/// A press `played` frames after the musical start lies in bar `b` counted from a sixteenth of a bar (a quarter
/// beat) before its bar line: from that on, up to as much before the next one, it means bar line `b`.
pub open spec fn means_bar_line(played: int, fpb: int, b: int) -> bool {
    16 * (b * fpb) <= 16 * played + fpb < 16 * (b * fpb) + 16 * fpb
}

/// Every press means one bar line.
pub proof fn law_a_press_means_one_bar_line(played: int, fpb: int) -> (b: int)
    requires
        fpb > 0,
    ensures
        means_bar_line(played, fpb, b),
        grid::graced_bars(played, fpb) == b,
        forall|c: int| #[trigger] means_bar_line(played, fpb, c) ==> c == b,
{
    let (x, d) = (16 * played + fpb, 16 * fpb);
    let b = x / d;
    vstd::arithmetic::div_mod::lemma_fundamental_div_mod(x, d);
    assert(16 * (b * fpb) == d * b) by (nonlinear_arith)
        requires
            d == 16 * fpb,
    ;
    assert forall|c: int| #[trigger] means_bar_line(played, fpb, c) implies c == b by {
        assert(c == b) by (nonlinear_arith)
            requires
                16 * (c * fpb) <= x < 16 * (c * fpb) + 16 * fpb,
                16 * (b * fpb) <= x < 16 * (b * fpb) + 16 * fpb,
                fpb > 0,
        ;
    }
    b
}

/// `b` bars fit, so whole bars are not fewer.
proof fn lemma_bars_fit(b: int, fpb: int, most: int)
    requires
        b >= 1,
        fpb > 0,
        b * fpb <= most,
    ensures
        b <= grid::whole_bars(most, fpb),
        b * fpb >= fpb,
{
    vstd::arithmetic::div_mod::lemma_fundamental_div_mod(most, fpb);
    assert(b <= most / fpb && b * fpb >= fpb) by (nonlinear_arith)
        requires
            b >= 1,
            fpb > 0,
            b * fpb <= most,
            most == fpb * (most / fpb) + most % fpb,
            most % fpb < fpb,
    ;
}

/// The first take: REC (or PLAY/STOP) ends it on the bar line the press means, a quarter beat early at most, and
/// the window stays open to it; where that bar line has passed, the loop is cut back to it. What was pressed a
/// hair early is not lost.
pub proof fn law_a_first_take_ends_on_a_bar_line(w: World, now: Frame, align: Frame, i: int, b: int, stop: bool)
    requires
        w.inv(now),
        captures_on(w, i),
        w.lane(i).state == LaneState::Recording,
        w.deck.master == 0,
        w.deck.rec->0.roll is None,
        b >= 1,
        means_bar_line(now - (w.deck.rec->0.start->0 - w.deck.rec->0.align), w.fpb(), b),
        b * w.fpb() <= w.deck.capacity,
        w.deck.rec->0.start->0 + b * w.fpb() <= w.deck.rec->0.end->0,
    ensures
        ({
            let command = if stop {
                Command::PlayStop(i as u8)
            } else {
                Command::RecDub(i as u8)
            };
            let after = w.commanded(now, align, command);
            let start = w.deck.rec->0.start->0;
            let line = start + b * w.fpb();
            &&& w.command_answer(now, command) == Applied::Done
            &&& now < line ==> {
                &&& after.deck.rec matches Some(r) && {
                    &&& r.lane == i
                    &&& r.start == Some(start)
                    &&& r.end == Some(line as Frame)
                    &&& r.downbeat == w.deck.rec->0.downbeat
                    &&& r.damaged == w.deck.rec->0.damaged
                    &&& r.stop_playback == (stop || w.deck.rec->0.stop_playback)
                }
                &&& after.lane(i) == w.lane(i)
                &&& after.deck.master == 0
            }
            &&& line <= now && !w.deck.rec->0.damaged && w.lane(i).written >= b * w.fpb() ==> {
                &&& after.deck.master == b * w.fpb()
                &&& after.lane(i).length == b * w.fpb()
                &&& after.lane(i).is_committed()
            }
        }),
{
    reveal(World::lane_commanded);
    w.lemma_lane(now, i);
    w.lemma_rec(now);
    let r0 = w.deck.rec->0;
    let told = Recorder { stop_playback: stop || r0.stop_playback, ..r0 };
    w.lemma_rec_changed(told, now);
    let v = w.with_rec(Some(told));
    assert(!stop ==> v == w);
    lemma_first_stop(v, now, align, i, b);
}

/// The stop gesture itself, once the recorder knows how the lane shall land.
#[verifier::rlimit(40)]
proof fn lemma_first_stop(w: World, now: Frame, align: Frame, i: int, b: int)
    requires
        w.inv(now),
        captures_on(w, i),
        w.lane(i).state == LaneState::Recording,
        w.deck.master == 0,
        w.deck.rec->0.roll is None,
        b >= 1,
        means_bar_line(now - (w.deck.rec->0.start->0 - w.deck.rec->0.align), w.fpb(), b),
        b * w.fpb() <= w.deck.capacity,
        w.deck.rec->0.start->0 + b * w.fpb() <= w.deck.rec->0.end->0,
    ensures
        ({
            let after = w.capture_stopped(now, align, i);
            let line = w.deck.rec->0.start->0 + b * w.fpb();
            &&& now < line ==> after == w.with_rec(Some(Recorder { end: Some(line as Frame), ..w.deck.rec->0 }))
            &&& line <= now && !w.deck.rec->0.damaged && w.lane(i).written >= b * w.fpb() ==> {
                &&& after.deck.master == b * w.fpb()
                &&& after.lane(i).length == b * w.fpb()
                &&& after.lane(i).is_committed()
            }
        }),
{
    reveal(World::capture_stopped);
    w.lemma_lane(now, i);
    w.lemma_rec(now);
    let fpb = w.fpb();
    grid::lemma_bar_bounds(w.clock.bpm as int, w.deck.sample_rate as int);
    let rec = w.deck.rec->0;
    let start = rec.start->0;
    let c = law_a_press_means_one_bar_line(now - (start - rec.align), fpb);
    lemma_bars_fit(b, fpb, w.deck.capacity as int);
    assert(rec == Recorder { roll: None, ..rec });
    w.lemma_stop_target(now, i);
    assert(w.stop_target(now, w.lane(i), rec) == start + b * fpb);
    let cut = w.window_cut(rec, (start + b * fpb) as Frame);
    if start + b * fpb <= now && !rec.damaged && w.lane(i).written >= b * fpb {
        lemma_first_master(cut, now, align, i, b);
    }
}

/// A clean first take of `b` bars and less than one more makes a master of them.
#[verifier::rlimit(40)]
pub proof fn lemma_first_master(w: World, now: Frame, align: Frame, i: int, b: int)
    requires
        w.inv(now),
        0 <= i < TRACK_COUNT,
        w.deck.rec is Some,
        w.deck.rec->0.lane == i,
        w.deck.rec->0.kind == Kind::Take,
        !w.deck.rec->0.damaged,
        !w.lane(i).auto_armed,
        w.deck.master == 0,
        b >= 1,
        b * w.fpb() <= w.deck.capacity,
        ({
            let raw = grid::min_int(w.lane(i).written as int, w.deck.rec->0.end->0 - w.deck.rec->0.start->0);
            ||| b * w.fpb() <= raw < b * w.fpb() + w.fpb()
            ||| b == 1 && raw < w.fpb()
        }),
    ensures
        ({
            let after = w.finished(now, align, i);
            let d = w.deck.rec->0.start->0 - w.deck.rec->0.align;
            &&& after.deck.master == b * w.fpb()
            &&& after.lane(i).length == b * w.fpb()
            &&& after.lane(i).period == b * w.fpb()
            &&& after.lane(i).is_committed()
            &&& after.lane(i).live == w.lane(i).live
            &&& (after.deck.anchor - d) % (b * w.fpb()) == 0
            &&& after.deck.anchor <= now < after.deck.anchor + b * w.fpb()
            &&& after.clock.bpm == w.clock.bpm
            &&& beats_with(after.clock, after.deck.anchor as int, after.deck.master as int, b, now)
            &&& after.lane(i).written == after.lane(i).length
            &&& !after.lane(i).armed
            &&& w.deck.rec->0.handoff is None ==> after.deck.rec is None && after.clock.locked
        }),
{
    reveal(World::finished);
    reveal(World::recording);
    reveal(World::master_made);
    reveal(World::take_laid);
    w.lemma_rec(now);
    w.lemma_lane(now, i);
    let rec = w.deck.rec->0;
    let fpb = w.fpb();
    let raw = grid::min_int(w.lane(i).written as int, rec.end->0 - rec.start->0);
    grid::lemma_bar_bounds(w.clock.bpm as int, w.deck.sample_rate as int);
    lemma_bars_fit(b, fpb, w.deck.capacity as int);
    lemma_commit_bars(raw, fpb, w.deck.capacity as int, b);
    grid::law_commit_anchor_on_the_count_grid(rec.downbeat->0, b * fpb, now as int);
    let shut = w.closed(now, i, rec);
    assert(shut.deck.master == b * fpb);
    let free = shut.released(i);
    assert(!free.blank()) by {
        reveal(Deck::is_blank);
        assert(free.deck.lanes@[i].is_committed());
    }
}

/// The bars of a take: those completed, one at least.
pub proof fn lemma_commit_bars(raw: int, fpb: int, capacity: int, b: int)
    requires
        fpb > 0,
        raw >= 0,
        b >= 1,
        b * fpb <= capacity,
        b * fpb <= raw < b * fpb + fpb || b == 1 && raw < fpb,
    ensures
        grid::commit_bars(raw, fpb, capacity) == b,
{
    lemma_bars_fit(b, fpb, capacity);
    if b * fpb <= raw {
        vstd::arithmetic::div_mod::lemma_fundamental_div_mod_converse(raw, fpb, b, raw - b * fpb);
    } else {
        vstd::arithmetic::div_mod::lemma_small_mod(raw as nat, fpb as nat);
        vstd::arithmetic::div_mod::lemma_basic_div(raw, fpb);
    }
}

/// A first take whose window is over makes the master of its completed bars, one at least, on the grid it was
/// counted in on: what was recorded past the last bar line is cut, what is missing to one bar is silence.
pub proof fn law_a_first_take_makes_a_master_of_whole_bars(w: World, now: Frame, align: Frame, i: int, b: int)
    requires
        window_over(w, now, i),
        w.deck.rec->0.kind == Kind::Take,
        w.deck.master == 0,
        !w.lane(i).armed,
        b >= 1,
        b * w.fpb() <= w.deck.capacity,
        ({
            let raw = grid::min_int(w.lane(i).written as int, w.deck.rec->0.end->0 - w.deck.rec->0.start->0);
            ||| b * w.fpb() <= raw < b * w.fpb() + w.fpb()
            ||| b == 1 && raw < w.fpb()
        }),
    ensures
        ({
            let after = w.edge_due(now, align);
            let d = w.deck.rec->0.start->0 - w.deck.rec->0.align;
            &&& after.deck.master == b * w.fpb()
            &&& after.lane(i).length == b * w.fpb()
            &&& after.lane(i).period == b * w.fpb()
            &&& after.lane(i).live == w.lane(i).live
            &&& after.lane(i).state == (if w.deck.rec->0.stop_playback {
                LaneState::Stopped
            } else {
                LaneState::Playing
            })
            &&& (after.deck.anchor - d) % (b * w.fpb()) == 0
            &&& after.deck.anchor <= now < after.deck.anchor + b * w.fpb()
            &&& after.clock.bpm == w.clock.bpm
            &&& beats_with(after.clock, after.deck.anchor as int, after.deck.master as int, b, now)
            &&& w.deck.rec->0.handoff is None ==> after.deck.rec is None && after.clock.locked
        }),
{
    reveal(World::edge_due);
    w.lemma_opened(now);
    assert(w.opened(now) == w);
    lemma_edge_state(w, now, align, i);
    lemma_first_master(w, now, align, i, b);
}

/// A press before the first bar line is near: the take keeps its audio through the press.
#[verifier::rlimit(40)]
pub proof fn law_a_first_take_under_a_bar_ends_at_the_press(w: World, now: Frame, align: Frame, i: int)
    requires
        w.inv(now),
        captures_on(w, i),
        w.lane(i).state == LaneState::Recording,
        w.deck.master == 0,
        w.deck.rec->0.roll is None,
        16 * (now - (w.deck.rec->0.start->0 - w.deck.rec->0.align)) + w.fpb() < 16 * w.fpb(),
        now < w.deck.rec->0.end->0,
        now < now + w.deck.rec->0.align,
    ensures
        ({
            let after = w.commanded(now, align, Command::RecDub(i as u8));
            let r0 = w.deck.rec->0;
            &&& after.deck.rec matches Some(r) && r.lane == i && r.start == r0.start && r.end == Some(
                grid::min_int(r0.end->0 as int, now + r0.align) as Frame,
            )
            &&& after.lane(i) == w.lane(i)
        }),
{
    reveal(World::lane_commanded);
    reveal(World::capture_stopped);
    w.lemma_lane(now, i);
    w.lemma_rec(now);
    let fpb = w.fpb();
    grid::lemma_bar_bounds(w.clock.bpm as int, w.deck.sample_rate as int);
    let r0 = w.deck.rec->0;
    let played = now - (r0.start->0 - r0.align);
    let b = law_a_press_means_one_bar_line(played, fpb);
    assert(b < 1) by (nonlinear_arith)
        requires
            16 * (b * fpb) <= 16 * played + fpb,
            16 * played + fpb < 16 * fpb,
            fpb > 0,
    ;
}

/// A later take over a master of whole bars ends on the bar line the press means, one bar at least and the
/// master at most: a press up to a quarter beat before bar line `b` keeps `b` bars.
#[verifier::rlimit(40)]
pub proof fn law_a_later_take_ends_on_a_bar_line(w: World, now: Frame, align: Frame, i: int, b: int, m: int)
    requires
        w.inv(now),
        captures_on(w, i),
        w.lane(i).state == LaneState::Recording,
        w.deck.master > 0,
        w.deck.master == m * w.fpb(),
        w.deck.rec->0.roll is None,
        means_bar_line(now - (w.deck.rec->0.start->0 - w.deck.rec->0.align), w.fpb(), b),
        b <= m,
    ensures
        ({
            let after = w.commanded(now, align, Command::RecDub(i as u8));
            let r0 = w.deck.rec->0;
            let bars = grid::max_int(b, 1);
            let line = grid::min_int(r0.end->0 as int, r0.start->0 + bars * w.fpb());
            now < line ==> {
                &&& after.deck.rec matches Some(r) && r.lane == i && r.start == r0.start && r.end == Some(line as Frame)
                &&& after.lane(i) == w.lane(i)
            }
        }),
{
    reveal(World::lane_commanded);
    reveal(World::capture_stopped);
    w.lemma_lane(now, i);
    w.lemma_rec(now);
    let fpb = w.fpb();
    grid::lemma_bar_bounds(w.clock.bpm as int, w.deck.sample_rate as int);
    let r0 = w.deck.rec->0;
    let played = now - (r0.start->0 - r0.align);
    let c = law_a_press_means_one_bar_line(played, fpb);
    vstd::arithmetic::div_mod::lemma_fundamental_div_mod_converse(w.deck.master as int, fpb, m, 0);
    assert(m >= 1) by (nonlinear_arith)
        requires
            m * fpb > 0,
            fpb > 0,
    ;
    keeps::lemma_later_bars_fit(b, fpb, w.deck.master as int, w.deck.capacity);
    w.lemma_stop_target(now, i);
}

/// A later take that runs past the master ends on whole loops: as many as were played by the press, with the
/// same quarter beat of grace, and as fit.
#[verifier::rlimit(40)]
pub proof fn law_a_take_past_the_loop_ends_on_a_loop_line(w: World, now: Frame, align: Frame, i: int, b: int, m: int, n: int)
    requires
        w.inv(now),
        captures_on(w, i),
        w.lane(i).state == LaneState::Recording,
        w.deck.master > 0,
        w.deck.master == m * w.fpb(),
        w.deck.rec->0.roll is None,
        means_bar_line(now - (w.deck.rec->0.start->0 - w.deck.rec->0.align), w.fpb(), b),
        m < b,
        n >= 1,
        n * m <= b < n * m + m,
        n * m <= 32,
        n * w.deck.master <= w.deck.capacity,
    ensures
        ({
            let after = w.commanded(now, align, Command::RecDub(i as u8));
            let r0 = w.deck.rec->0;
            let line = grid::min_int(r0.end->0 as int, r0.start->0 + n * w.deck.master);
            now < line ==> {
                &&& after.deck.rec matches Some(r) && r.lane == i && r.start == r0.start && r.end == Some(line as Frame)
                &&& after.lane(i) == w.lane(i)
            }
        }),
{
    reveal(World::lane_commanded);
    reveal(World::capture_stopped);
    w.lemma_lane(now, i);
    w.lemma_rec(now);
    let fpb = w.fpb();
    let cap = w.deck.capacity as int;
    grid::lemma_bar_bounds(w.clock.bpm as int, w.deck.sample_rate as int);
    let r0 = w.deck.rec->0;
    let played = now - (r0.start->0 - r0.align);
    let c = law_a_press_means_one_bar_line(played, fpb);
    vstd::arithmetic::div_mod::lemma_fundamental_div_mod_converse(w.deck.master as int, fpb, m, 0);
    assert(m >= 1 && n * m >= m) by (nonlinear_arith)
        requires
            m * fpb > 0,
            fpb > 0,
            n >= 1,
    ;
    keeps::lemma_later_bars_fit(b, fpb, w.deck.master as int, w.deck.capacity);
    w.lemma_stop_target(now, i);
    let most = deck::most_bars(w.deck.capacity, fpb);
    assert(n * w.deck.master == (n * m) * fpb) by (nonlinear_arith)
        requires
            w.deck.master == m * fpb,
    ;
    lemma_bars_fit(n * m, fpb, cap);
    assert(n * m <= most);
    vstd::arithmetic::div_mod::lemma_fundamental_div_mod_converse(b, m, n, b - n * m);
    vstd::arithmetic::div_mod::lemma_fundamental_div_mod(most, m);
    assert(most / m >= n) by (nonlinear_arith)
        requires
            most == m * (most / m) + most % m,
            most % m < m,
            n * m <= most,
            m >= 1,
    ;
}

/// A first take that ran past what the buffer holds in whole bars keeps the bars that fit.
#[verifier::rlimit(40)]
pub proof fn law_a_first_take_keeps_the_bars_that_fit(w: World, now: Frame, align: Frame, i: int, b: int, c: int)
    requires
        w.inv(now),
        captures_on(w, i),
        w.lane(i).state == LaneState::Recording,
        w.deck.master == 0,
        w.deck.rec->0.roll is None,
        c >= 1,
        c <= b,
        means_bar_line(now - (w.deck.rec->0.start->0 - w.deck.rec->0.align), w.fpb(), b),
        c * w.fpb() <= w.deck.capacity < c * w.fpb() + w.fpb(),
        now < w.deck.rec->0.start->0 + c * w.fpb(),
        now < w.deck.rec->0.end->0,
    ensures
        ({
            let after = w.commanded(now, align, Command::RecDub(i as u8));
            let (r, s) = (w.deck.rec->0, after.deck.rec->0);
            &&& after.deck.rec is Some
            &&& s.end is Some
            &&& s.end->0 == grid::min_int(r.end->0 as int, r.start->0 + c * w.fpb())
            &&& after == w.with_rec(Some(Recorder { end: s.end, ..r }))
        }),
{
    reveal(World::lane_commanded);
    reveal(World::capture_stopped);
    w.lemma_lane(now, i);
    w.lemma_rec(now);
    let fpb = w.fpb();
    grid::lemma_bar_bounds(w.clock.bpm as int, w.deck.sample_rate as int);
    let r = w.deck.rec->0;
    let d = law_a_press_means_one_bar_line(now - (r.start->0 - r.align), fpb);
    vstd::arithmetic::div_mod::lemma_fundamental_div_mod_converse(
        w.deck.capacity as int,
        fpb,
        c,
        w.deck.capacity - c * fpb,
    );
    assert(r == Recorder { roll: None, ..r });
    w.lemma_stop_target(now, i);
}

/// Over a master that is no whole bars a take ends at the press, the input's delay later.
#[verifier::rlimit(40)]
pub proof fn law_a_take_over_an_odd_loop_ends_at_the_press(w: World, now: Frame, align: Frame, i: int)
    requires
        w.inv(now),
        captures_on(w, i),
        w.lane(i).state == LaneState::Recording,
        w.deck.master > 0,
        w.deck.master as int % w.fpb() != 0,
        w.deck.rec->0.roll is None,
        now < w.deck.rec->0.end->0,
        w.deck.rec->0.align > 0,
    ensures
        ({
            let after = w.commanded(now, align, Command::RecDub(i as u8));
            let (r, s) = (w.deck.rec->0, after.deck.rec->0);
            &&& after.deck.rec is Some
            &&& s.end is Some
            &&& s.end->0 == grid::min_int(r.end->0 as int, now + r.align)
            &&& after == w.with_rec(Some(Recorder { end: s.end, ..r }))
        }),
{
    reveal(World::lane_commanded);
    reveal(World::capture_stopped);
    w.lemma_lane(now, i);
    w.lemma_rec(now);
    let r = w.deck.rec->0;
    assert(r == Recorder { roll: None, ..r });
    w.lemma_stop_target(now, i);
}

/// A second press, REC or PLAY/STOP, on a lane that is only armed or listens takes the arm back: it is as if STOP had
/// been pressed, whose lane is EMPTY again.
#[verifier::rlimit(40)]
pub proof fn law_a_press_takes_an_arm_back(w: World, now: Frame, align: Frame, i: int)
    requires
        w.inv(now),
        0 <= i < TRACK_COUNT,
        w.lane(i).armed || w.lane(i).auto_armed,
        w.lane(i).length == 0,
    ensures
        ({
            let rec = w.commanded(now, align, Command::RecDub(i as u8));
            let play = w.commanded(now, align, Command::PlayStop(i as u8));
            let stop = w.commanded(now, align, Command::Stop(i as u8));
            &&& rec == stop
            &&& play == stop
            &&& rec.lane(i).state == LaneState::Empty
            &&& rec.deck.rec is None
            &&& gestures::others_same(w, rec, i)
            &&& w.deck.master == 0 ==> !rec.clock.locked
        }),
{
    reveal(World::lane_commanded);
    reveal(World::capture_stopped);
    w.lemma_lane(now, i);
    assert(w.deck.rec is Some && w.deck.rec->0.lane == i) by {
        reveal(Deck::rec_ok);
        assert(w.deck.lanes@[i].is_capturing());
    }
    w.lemma_rec(now);
    reveal(World::stopped);
    let told = Recorder { stop_playback: true, ..w.deck.rec->0 };
    let v = w.with_rec(Some(told));
    assert(v.stopped(now, i) == w.stopped(now, i));
}

} // verus!
