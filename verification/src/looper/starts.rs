//! How a capture starts: the count-in, AUTO, the later take on its loop start, the overdub on its frame.

use vstd::prelude::*;

use crate::api::{Command, LaneState, TRACK_COUNT};
use crate::deck;
use crate::deck::{Applied, Deck, Job, Kind, Lane, Recorder, World, BUFFER_COUNT};
use crate::float::Single;
use crate::grid;
use crate::grid::{Frame, Grid};
use crate::looper::changes::{is_next_start, lemma_next_start};
use crate::looper::gestures;
use crate::looper::gestures::{at_rest, others_same};

verus! {

/// REC may take lane `i` and the free buffer now: no job is on the lane, no layer is being put back.
pub open spec fn may_capture(w: World, i: int) -> bool {
    &&& 0 <= i < TRACK_COUNT
    &&& w.deck.rec is None
    &&& at_rest(w.jobs, i)
    &&& forall|k: int| 0 <= k < w.jobs.len() && (#[trigger] w.jobs[k]) is Some ==> !(w.jobs[k]->0.kind is Restore)
}

/// A recorder that has just been armed for a take on lane `i`: nothing of it is decided but its window.
pub open spec fn is_new_take(r: Recorder, i: int, align: Frame) -> bool {
    &&& r.lane == i
    &&& r.kind == Kind::Take
    &&& r.align == align
    &&& !r.stop_playback
    &&& !r.damaged
    &&& r.handoff is None
}

/// The first take is counted in by one bar from the press, locks the tempo, and records from the downbeat, the
/// input's delay later, for as long as the buffer holds.
pub proof fn law_a_first_take_is_counted_in(w: World, now: Frame, align: Frame, i: int)
    requires
        w.inv(now),
        may_capture(w, i),
        w.lane(i).state == LaneState::Empty,
        w.deck.master == 0,
        !w.deck.auto_record,
        grid::near(now as int),
        0 <= align <= grid::LOOP_LIMIT,
    ensures
        ({
            let after = w.commanded(now, align, Command::RecDub(i as u8));
            let (t, r) = (after.lane(i), after.deck.rec->0);
            let bar = now + w.fpb();
            &&& w.command_answer(now, Command::RecDub(i as u8)) == Applied::Done
            &&& t.state == LaneState::Recording
            &&& t.armed
            &&& !t.auto_armed
            &&& t.written == 0
            &&& t == (Lane { state: t.state, armed: true, auto_armed: false, written: 0, period: t.period, ..w.lane(i) })
            &&& after.deck.rec is Some
            &&& is_new_take(r, i, align)
            &&& r.downbeat == Some(bar as Frame)
            &&& r.start == Some((bar + align) as Frame)
            &&& !w.deck.fixed_length ==> r.end == Some((r.start->0 + w.deck.capacity) as Frame) && r.roll is None
            &&& after.clock.locked
            &&& after.clock.bpm == w.clock.bpm
            &&& after.clock.metronome == w.clock.metronome
            &&& after.clock.pulse matches Some(p) && {
                &&& p.next == 0
                &&& p.next_at() == now
                &&& p.forced_until == 4
                &&& p.grid.beat_at(4) == bar
            }
            &&& after.clock.last_click is None
            &&& others_same(w, after, i)
            &&& after.deck.master == 0
            &&& after.jobs == w.jobs
            &&& after.said == w.said
            &&& after.fx == w.fx
        }),
{
    reveal(World::lane_commanded);
    reveal(World::recording);
    reveal(deck::take_bound);
    w.lemma_lane(now, i);
    gestures::lemma_at_rest(w.jobs, i, true);
    lemma_count_bar(now, w.clock.bpm, w.deck.sample_rate);
    crate::beats::law_a_count_in_is_one_bar(w.clock, now);
}

/// Four beats at a tempo are one bar.
pub proof fn lemma_count_bar(now: Frame, bpm: u32, sample_rate: u32)
    ensures
        Grid::tempo_grid(now, 0, bpm, sample_rate).beat_at(grid::COUNT_IN_BEATS as int) == now + grid::bar_frames(
            bpm as int,
            sample_rate as int,
        ),
{
    let g = Grid::tempo_grid(now, 0, bpm, sample_rate);
    let num = g.num as int;
    assert(2 * (4 - 0) * num + bpm == 480 * sample_rate + bpm) by (nonlinear_arith)
        requires
            num == 60 * sample_rate,
    ;
}

/// With a FIXED length a first take is that many bars, as far as they fit; with RETAKE on top it rolls.
pub proof fn law_a_fixed_first_take_is_so_many_bars(w: World, now: Frame, align: Frame, i: int)
    requires
        w.inv(now),
        may_capture(w, i),
        w.lane(i).state == LaneState::Empty,
        w.deck.master == 0,
        !w.deck.auto_record,
        w.deck.fixed_length,
        grid::near(now as int),
        0 <= align <= grid::LOOP_LIMIT,
    ensures
        ({
            let after = w.commanded(now, align, Command::RecDub(i as u8));
            let r = after.deck.rec->0;
            let len = r.end->0 - r.start->0;
            let asked = w.deck.fixed_bars * w.fpb();
            &&& after.deck.rec is Some
            &&& r.start == Some((now + w.fpb() + align) as Frame)
            &&& asked <= w.deck.capacity ==> len == asked
            &&& w.deck.capacity < asked ==> len <= w.deck.capacity < len + w.fpb() && len % w.fpb() == 0
            &&& w.deck.retake ==> r.roll is Some && r.roll->0.pass == 1 && !r.roll->0.kept
            &&& !w.deck.retake ==> r.roll is None
        }),
{
    reveal(World::lane_commanded);
    reveal(World::recording);
    reveal(deck::take_bound);
    w.lemma_lane(now, i);
    gestures::lemma_at_rest(w.jobs, i, true);
    lemma_count_bar(now, w.clock.bpm, w.deck.sample_rate);
    grid::lemma_bar_bounds(w.clock.bpm as int, w.deck.sample_rate as int);
    lemma_bars_that_fit(w.deck.fixed_bars as int, w.fpb(), w.deck.capacity as int);
}

/// So many bars, or the most that fit.
pub proof fn lemma_bars_that_fit(bars: int, fpb: int, most: int)
    requires
        bars >= 1,
        1 <= fpb <= most,
    ensures
        ({
            let len = grid::clamped_bars(bars, grid::whole_bars(most, fpb)) * fpb;
            &&& bars * fpb <= most ==> len == bars * fpb
            &&& most < bars * fpb ==> len <= most < len + fpb && len % fpb == 0
            &&& 0 < len <= most
        }),
{
    let fit = most / fpb;
    vstd::arithmetic::div_mod::lemma_fundamental_div_mod(most, fpb);
    vstd::arithmetic::div_mod::lemma_mod_bound(most, fpb);
    assert(fit >= 1 && (bars * fpb <= most <==> bars <= fit) && fit * fpb <= most < fit * fpb + fpb && bars * fpb > 0
        && fit * fpb > 0) by (nonlinear_arith)
        requires
            most == fpb * fit + most % fpb,
            0 <= most % fpb < fpb,
            1 <= fpb <= most,
            bars >= 1,
    ;
    vstd::arithmetic::div_mod::lemma_mod_multiples_basic(fit, fpb);
}

/// AUTO: the first take listens: no count, no lock, no window, until the input triggers.
pub proof fn law_auto_listens_before_the_first_take(w: World, now: Frame, align: Frame, i: int)
    requires
        w.inv(now),
        may_capture(w, i),
        w.lane(i).state == LaneState::Empty,
        w.deck.master == 0,
        w.deck.auto_record,
    ensures
        ({
            let after = w.commanded(now, align, Command::RecDub(i as u8));
            let (t, r) = (after.lane(i), after.deck.rec->0);
            &&& w.command_answer(now, Command::RecDub(i as u8)) == Applied::Done
            &&& t.state == LaneState::Recording
            &&& t.auto_armed
            &&& !t.armed
            &&& t.written == 0
            &&& t == (Lane { state: t.state, armed: false, auto_armed: true, written: 0, period: t.period, ..w.lane(i) })
            &&& after.deck.rec is Some
            &&& is_new_take(r, i, align)
            &&& r.start is None
            &&& r.end is None
            &&& r.roll is None
            &&& after.ear.heard.len() == 0
            &&& after.ear.squares.len() == 0
            &&& after.ear.lookback == w.ear.lookback
            &&& after.ear.analysis == w.ear.analysis
            &&& after.clock == w.clock
            &&& others_same(w, after, i)
            &&& after.deck.master == 0
            &&& after.jobs == w.jobs
            &&& after.said == w.said
        }),
{
    reveal(World::lane_commanded);
    reveal(World::recording);
    w.lemma_lane(now, i);
    gestures::lemma_at_rest(w.jobs, i, true);
}

/// AUTO triggered: the take starts on the onset as the input gave it, the grid where it was played, the input's
/// delay before, and the tempo is locked.
pub proof fn law_auto_records_from_the_onset(w: World, now: Frame, align: Frame, onset: Frame)
    requires
        w.inv(now),
        w.deck.rec is Some,
        w.lane(w.deck.rec->0.lane as int).auto_armed,
        grid::fits(onset - align),
        grid::fits(onset + w.deck.capacity),
    ensures
        ({
            let after = w.auto_begun(now, align, onset);
            let i = w.deck.rec->0.lane as int;
            let r = after.deck.rec->0;
            &&& after.deck.rec is Some
            &&& is_new_take(Recorder { stop_playback: false, damaged: false, ..r }, i, align)
            &&& r.start == Some(onset)
            &&& r.downbeat == Some((onset - align) as Frame)
            &&& !w.deck.fixed_length ==> r.end == Some((onset + w.deck.capacity) as Frame)
            &&& !after.lane(i).auto_armed
            &&& after.lane(i) == (Lane { auto_armed: false, ..w.lane(i) })
            &&& others_same(w, after, i)
            &&& after.clock.locked
            &&& after.clock.bpm == w.clock.bpm
            &&& after.clock.pulse matches Some(p) && {
                &&& p.grid.base_frame == onset - align
                &&& p.grid.base_index == 0
                &&& p.grid.num == 60 * w.clock.sample_rate
                &&& p.grid.den == w.clock.bpm
                &&& p.forced_until == 0
            }
            &&& after.deck.master == w.deck.master
        }),
{
    reveal(deck::take_bound);
    w.lemma_rec(now);
    w.lemma_lane(now, w.deck.rec->0.lane as int);
}

/// A later take waits for the next loop start and records one loop from it, the input's delay later; the loops
/// and the tempo are left alone. RETAKE rolls it.
pub proof fn law_a_later_take_starts_on_the_loop(w: World, now: Frame, align: Frame, i: int)
    requires
        w.inv(now),
        may_capture(w, i),
        w.lane(i).state == LaneState::Empty,
        w.deck.master > 0,
        0 <= align <= grid::LOOP_LIMIT,
    ensures
        ({
            let after = w.commanded(now, align, Command::RecDub(i as u8));
            let (t, r) = (after.lane(i), after.deck.rec->0);
            &&& w.command_answer(now, Command::RecDub(i as u8)) == Applied::Done
            &&& t.state == LaneState::Recording
            &&& t.armed
            &&& !t.auto_armed
            &&& t.written == 0
            &&& t == (Lane { state: t.state, armed: true, auto_armed: false, written: 0, period: t.period, ..w.lane(i) })
            &&& after.deck.rec is Some
            &&& is_new_take(r, i, align)
            &&& r.start is Some
            &&& is_next_start(w, now, (r.start->0 - align) as Frame)
            &&& r.downbeat is None
            &&& !w.deck.fixed_length || w.deck.retake ==> r.end == Some((r.start->0 + w.deck.master) as Frame)
            &&& w.deck.retake ==> r.roll is Some && r.roll->0.pass == 1 && !r.roll->0.kept
            &&& !w.deck.retake ==> r.roll is None
            &&& after.clock == w.clock
            &&& others_same(w, after, i)
            &&& after.deck.master == w.deck.master
            &&& after.deck.anchor == w.deck.anchor
            &&& after.jobs == w.jobs
            &&& after.said == w.said
            &&& after.fx == w.fx
        }),
{
    reveal(World::lane_commanded);
    reveal(World::recording);
    reveal(deck::take_bound);
    w.lemma_lane(now, i);
    gestures::lemma_at_rest(w.jobs, i, true);
    w.lemma_boundary(now);
    lemma_next_start(w, now);
}

/// A FIXED later take over a master of `m` bars: so many bars as asked for up to the master, past it the whole
/// loops they span, as many as the buffer and the longest FIXED take hold.
pub proof fn law_a_fixed_later_take_is_so_many_bars(w: World, now: Frame, align: Frame, i: int, m: int, n: int)
    requires
        w.inv(now),
        may_capture(w, i),
        w.lane(i).state == LaneState::Empty,
        w.deck.master > 0,
        w.deck.master == m * w.fpb(),
        w.deck.fixed_length,
        !w.deck.retake,
        0 <= align <= grid::LOOP_LIMIT,
        n >= 1,
        m < w.deck.fixed_bars ==> n * m <= w.deck.fixed_bars < n * m + m && n * m * w.fpb() <= w.deck.capacity,
    ensures
        ({
            let after = w.commanded(now, align, Command::RecDub(i as u8));
            let r = after.deck.rec->0;
            let len = r.end->0 - r.start->0;
            &&& after.deck.rec is Some
            &&& w.deck.fixed_bars <= m ==> len == w.deck.fixed_bars * w.fpb()
            &&& m < w.deck.fixed_bars ==> len == n * w.deck.master
        }),
{
    reveal(World::lane_commanded);
    reveal(World::recording);
    reveal(deck::take_bound);
    w.lemma_lane(now, i);
    gestures::lemma_at_rest(w.jobs, i, true);
    w.lemma_boundary(now);
    let fpb = w.fpb();
    let asked = w.deck.fixed_bars as int;
    grid::lemma_bar_bounds(w.clock.bpm as int, w.deck.sample_rate as int);
    vstd::arithmetic::div_mod::lemma_fundamental_div_mod_converse(w.deck.master as int, fpb, m, 0);
    assert(m >= 1) by (nonlinear_arith)
        requires
            m * fpb > 0,
            fpb > 0,
    ;
    crate::keeps::lemma_later_bars_fit(asked, fpb, w.deck.master as int, w.deck.capacity);
    if m < asked {
        let most = deck::most_bars(w.deck.capacity, fpb);
        assert(n * w.deck.master == (n * m) * fpb && n * m >= 1) by (nonlinear_arith)
            requires
                w.deck.master == m * fpb,
                n >= 1,
                m >= 1,
        ;
        lemma_bars_that_fit(n * m, fpb, w.deck.capacity as int);
        assert(n * m <= most) by {
            vstd::arithmetic::div_mod::lemma_fundamental_div_mod(w.deck.capacity as int, fpb);
            let fit = w.deck.capacity as int / fpb;
            assert(n * m <= fit) by (nonlinear_arith)
                requires
                    (n * m) * fpb <= w.deck.capacity,
                    w.deck.capacity == fpb * fit + w.deck.capacity as int % fpb,
                    w.deck.capacity as int % fpb < fpb,
                    fpb > 0,
            ;
        }
        vstd::arithmetic::div_mod::lemma_fundamental_div_mod_converse(asked, m, n, asked - n * m);
        vstd::arithmetic::div_mod::lemma_fundamental_div_mod(most, m);
        assert(most / m >= n) by (nonlinear_arith)
            requires
                most == m * (most / m) + most % m,
                most % m < m,
                n * m <= most,
                m >= 1,
        ;
    }
}

/// An armed take records from the frame its window starts, not before.
pub proof fn law_a_window_opens_on_its_frame(w: World, now: Frame, align: Frame)
    requires
        w.inv(now),
        w.deck.rec is Some,
        w.lane(w.deck.rec->0.lane as int).armed,
        now < w.deck.rec->0.end->0,
    ensures
        ({
            let after = w.edge_due(now, align);
            let i = w.deck.rec->0.lane as int;
            &&& now < w.deck.rec->0.start->0 ==> after == w
            &&& w.deck.rec->0.start->0 <= now ==> {
                &&& after.lane(i) == (Lane { armed: false, written: 0, ..w.lane(i) })
                &&& others_same(w, after, i)
                &&& after == (World { deck: Deck { lanes: after.deck.lanes, ..w.deck }, ..w })
            }
        }),
{
    reveal(World::edge_due);
    w.lemma_rec(now);
    w.lemma_lane(now, w.deck.rec->0.lane as int);
}

/// REC on a lane that plays layers onto it from the frame of the press, the input's delay later, without an end:
/// the loop plays on, and a copy of it as it was becomes the undo target.
#[verifier::rlimit(40)]
pub proof fn law_rec_on_a_playing_lane_layers(
    w: World,
    now: Frame,
    align: Frame,
    i: int,
    pcm: Seq<Seq<Single>>,
    p: int,
) -> (k: int)
    requires
        w.inv(now),
        may_capture(w, i),
        w.lane(i).state == LaneState::Playing,
        w.lane(i).stop_at is None,
        !w.lane(i).reversed,
        0 <= align <= grid::LOOP_LIMIT,
        pcm.len() == BUFFER_COUNT,
        forall|b: int| 0 <= b < BUFFER_COUNT ==> (#[trigger] pcm[b]).len() == w.deck.capacity,
        0 <= p < w.deck.master,
    ensures
        ({
            let after = w.commanded(now, align, Command::RecDub(i as u8));
            let (a, b, r) = (w.lane(i), after.lane(i), after.deck.rec->0);
            let job = after.jobs[k]->0;
            let copied = job.moved(pcm, 0, job.visit.span as int);
            &&& w.command_answer(now, Command::RecDub(i as u8)) == Applied::Done
            &&& b.state == LaneState::Overdubbing
            &&& b.live == a.live
            &&& !b.reversed
            &&& b.audible.buf == a.live
            &&& !b.audible.reversed
            &&& b.switch_at is None
            &&& b.undo_valid
            &&& !b.spare_reversed
            &&& b.spare == w.deck.free
            &&& after.deck.free == a.spare
            &&& b.length == a.length
            &&& b.period == a.period
            &&& b.volume == a.volume
            &&& b.muted == a.muted
            &&& after.deck.rec is Some
            &&& r.lane == i
            &&& r.kind == Kind::Overdub
            &&& r.align == align
            &&& r.start == Some((now + align) as Frame)
            &&& r.end is None
            &&& !r.stop_playback
            &&& !r.damaged
            &&& r.roll is None
            &&& r.summed == 0
            &&& r.first_pos == (now - w.deck.anchor) % (w.deck.master as int)
            &&& r.prev_undo_valid == a.undo_valid
            &&& r.prev_spare_reversed == a.spare_reversed
            &&& 0 <= k < after.jobs.len()
            &&& after.jobs[k] is Some
            &&& job.lane == i
            &&& job.start == now
            &&& copied[b.spare as int][p] == pcm[a.live as int][p]
            &&& copied[a.live as int] == pcm[a.live as int]
            &&& others_same(w, after, i)
            &&& after.deck.master == w.deck.master
            &&& after.deck.anchor == w.deck.anchor
            &&& after.clock == w.clock
            &&& after.said == w.said
            &&& after.fx == w.fx
        }),
{
    reveal(World::lane_commanded);
    reveal(World::overdubbing);
    w.lemma_lane(now, i);
    gestures::lemma_at_rest(w.jobs, i, true);
    let len = w.deck.master;
    let first = grid::pos_in_loop(now as int, w.deck.anchor as int, len as int);
    vstd::arithmetic::div_mod::lemma_mod_bound(now - w.deck.anchor, len as int);
    let job = Job {
        kind: deck::JobKind::Copy { src: w.lane(i).live, dst: w.deck.free },
        lane: i as usize,
        visit: deck::Visit { lo: 0, span: len, off: first as Frame, modulus: len },
        start: now,
        progress: 0,
    };
    let k = gestures::lemma_job_slot(w.jobs, job);
    let after = w.overdubbing(now, align, i);
    assert(after.jobs == deck::with_job(w.jobs, job));
    assert(job.wf(w.deck.capacity as int)) by {
        reveal(Deck::pool_ok);
        assert(w.deck.owner(i) != w.deck.owner(10));
    }
    job.law_a_whole_job_moves_its_span(pcm, p, w.deck.capacity as int);
    vstd::arithmetic::div_mod::lemma_small_mod(p as nat, len as nat);
    k
}

/// REC does nothing on a lane that is stopped, that waits for its loop end or plays backwards, nor (unless a take
/// rolls) anywhere else than on the lane that records.
#[verifier::rlimit(40)]
pub proof fn law_rec_does_nothing_where_it_may_not(w: World, now: Frame, align: Frame, i: int)
    requires
        w.inv(now),
        0 <= i < TRACK_COUNT,
        ({
            let t = w.lane(i);
            let other = w.deck.rec is Some && w.deck.rec->0.lane != i;
            let rolls = w.deck.rec is Some && w.deck.rec->0.roll is Some && !w.lane(w.deck.rec->0.lane as int).armed;
            ||| t.state == LaneState::Stopped
            ||| t.state == LaneState::Playing && (t.stop_at is Some || t.reversed || other)
            ||| t.state == LaneState::Empty && other && !rolls
        }),
    ensures
        w.commanded(now, align, Command::RecDub(i as u8)) == w,
        w.lane(i).state != LaneState::Empty ==> w.command_answer(now, Command::RecDub(i as u8)) == Applied::Done,
{
    reveal(World::lane_commanded);
    reveal(World::overdubbing);
    reveal(World::recording);
    w.lemma_lane(now, i);
}

} // verus!
