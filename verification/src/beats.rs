//! What the pulse promises: which beats sound, on which frame, and which of them click.

use vstd::prelude::*;

use crate::clock::{Clock, Pulse};
use crate::grid;
use crate::grid::{Frame, Grid, HORIZON, LOOP_LIMIT};

verus! {

/// A click on a frame may sound: the level is up, and the last click was 0.12 s away or more, or late while this
/// one is on time.
pub open spec fn is_clear(clock: Clock, frame: Frame, late: bool) -> bool {
    &&& clock.click_volume.rank() > 0
    &&& match clock.last_click {
        None => true,
        Some(last) => {
            ||| clock.last_click_late && !late
            ||| 25 * (frame - last) >= 3 * clock.sample_rate
            ||| 25 * (last - frame) >= 3 * clock.sample_rate
        },
    }
}

/// What a click that sounds leaves behind: it began on its frame, accented on the first beat of a bar, at the level
/// that was set.
pub open spec fn rings(before: Clock, after: Clock, frame: Frame, accent: bool, late: bool) -> bool {
    &&& after.last_click == Some(frame)
    &&& after.last_click_late == late
    &&& after.click is Some
    &&& after.click->0.start == frame
    &&& after.click->0.accent == accent
    &&& after.click->0.volume == before.click_volume
}

/// The clock one beat on, and otherwise, unless it clicked, as it was.
pub open spec fn moved_on(before: Clock, after: Clock, next: int) -> bool {
    &&& after.bpm == before.bpm
    &&& after.locked == before.locked
    &&& after.metronome == before.metronome
    &&& after.click_volume == before.click_volume
    &&& after.pulse is Some
    &&& after.pulse->0.next == next
    &&& after.pulse->0.grid == before.pulse->0.grid
    &&& after.pulse->0.forced_until == before.pulse->0.forced_until
    &&& after.pulse->0.free_run == before.pulse->0.free_run
}

/// No beat fires before its frame.
pub proof fn law_no_beat_is_early(clock: Clock, frame: Frame, until: Option<Frame>)
    requires
        clock.wf(),
        clock.pulse matches Some(p) ==> frame < p.next_at(),
    ensures
        clock.due_beat(frame, until) is None,
        clock.after_beat(frame, until) == clock,
{
    clock.lemma_no_beat_before_the_next(frame, until);
}

/// A count-in beat that is due fires, on time or late, with the metronome on or off: it says how many are left, and
/// it clicks unless a click is too near.
pub proof fn law_a_count_beat_always_fires(clock: Clock, frame: Frame, until: Option<Frame>)
    requires
        clock.wf(),
        clock.pulse is Some,
        clock.pulse->0.next < clock.pulse->0.forced_until,
        clock.pulse->0.next_at() <= frame,
    ensures
        ({
            let p = clock.pulse->0;
            let after = clock.after_beat(frame, until);
            let late = p.next_at() < frame;
            &&& clock.due_beat(frame, until) matches Some(b) && {
                &&& b.frame == frame
                &&& b.beat_in_bar == p.next % 4
                &&& b.count_left == p.forced_until - p.next
                &&& b.clicked == is_clear(clock, frame, late)
            }
            &&& moved_on(clock, after, p.next + 1)
            &&& is_clear(clock, frame, late) ==> rings(clock, after, frame, p.next % 4 == 0, late)
            &&& !is_clear(clock, frame, late) ==> after.click == clock.click && after.last_click == clock.last_click
        }),
{
    reveal(Pulse::wf);
    assert(clock.pulse->0.forced_until <= 255);
}

/// Any other beat fires on its frame, and clicks only with the metronome on, while the transport is alive past that
/// frame.
pub proof fn law_a_beat_on_its_frame_fires(clock: Clock, frame: Frame, until: Option<Frame>)
    requires
        clock.wf(),
        clock.pulse is Some,
        clock.pulse->0.forced_until <= clock.pulse->0.next,
        clock.pulse->0.next_at() == frame,
        clock.pulse->0.next < u64::MAX,
    ensures
        ({
            let p = clock.pulse->0;
            let after = clock.after_beat(frame, until);
            let alive = until is Some && frame < until->0;
            let clicks = clock.metronome && alive && is_clear(clock, frame, false);
            &&& clock.due_beat(frame, until) matches Some(b) && {
                &&& b.frame == frame
                &&& b.beat_in_bar == p.next % 4
                &&& b.count_left == 0
                &&& b.clicked == clicks
            }
            &&& moved_on(clock, after, p.next + 1)
            &&& clicks ==> rings(clock, after, frame, p.next % 4 == 0, false)
            &&& !clicks ==> after.click == clock.click && after.last_click == clock.last_click
        }),
{
    reveal(Pulse::wf);
    let p = clock.pulse->0;
    p.grid.lemma_first_beat(frame as int);
    if p.grid.first_beat(frame as int) > p.next {
        assert(p.grid.beat_at(p.next as int) < frame);
    }
}

/// Beats that a jump of the frame counter left behind are dropped: what fires then is a beat of that very frame, and
/// the next one lies ahead.
pub proof fn law_a_missed_beat_is_dropped(clock: Clock, frame: Frame, until: Option<Frame>)
    requires
        clock.wf(),
        grid::near(frame as int),
        clock.pulse is Some,
        clock.pulse->0.forced_until <= clock.pulse->0.next,
        clock.pulse->0.next_at() < frame,
    ensures
        ({
            let p = clock.pulse->0;
            let after = clock.after_beat(frame, until).pulse->0;
            &&& after.grid == p.grid
            &&& clock.due_beat(frame, until) is Some ==> p.grid.beat_at(after.next - 1) == frame && after.next > p.next
            &&& clock.due_beat(frame, until) is None ==> after.next_at() > frame && p.grid.beat_at(after.next - 1) < frame
        }),
{
    reveal(Pulse::wf);
    let p = clock.pulse->0;
    p.grid.lemma_first_beat(frame as int);
    p.grid.lemma_first_beat_soon(frame as int);
    let n = p.grid.first_beat(frame as int);
    if n <= p.next {
        p.grid.law_beats_in_order(n, p.next as int);
    }
    assert(p.live(frame as int) == n);
    assert(p.grid.beat_at(n - 1) < frame);
}

/// A count-in has four beats from its frame, one a quarter bar, and the take's first frame is a bar after it. A fast
/// restart cannot swallow its first click.
pub proof fn law_a_count_in_is_one_bar(clock: Clock, now: Frame)
    requires
        clock.wf(),
        grid::near(now as int),
    ensures
        ({
            let after = clock.counting_in(now, 4, now);
            let p = after.pulse->0;
            &&& after.pulse is Some
            &&& p.next == 0
            &&& p.forced_until == 4
            &&& !p.free_run
            &&& p.next_at() == now
            &&& p.grid.beat_at(4) == now + grid::bar_frames(clock.bpm as int, clock.sample_rate as int)
            &&& after.last_click is None
            &&& after.bpm == clock.bpm
            &&& after.metronome == clock.metronome
            &&& after.click_volume == clock.click_volume
        }),
{
    let g = Grid::tempo_grid(now, 0, clock.bpm, clock.sample_rate);
    g.law_beats_never_drift(0);
    assert(0 * g.den == 0 && 0 * g.num == 0) by (nonlinear_arith);
    crate::looper::starts::lemma_count_bar(now, clock.bpm, clock.sample_rate);
}

/// A master's pulse has four beats a bar, so many bars a loop, from the loop's start for ever; the next one is the
/// first from now on.
pub proof fn law_a_master_beats_four_to_the_bar(clock: Clock, anchor: Frame, master: Frame, bars: Frame, now: Frame, k: int)
    requires
        1 <= bars,
        4 * bars <= master <= LOOP_LIMIT,
        -2 * HORIZON <= anchor <= 2 * HORIZON,
        grid::near(now as int),
        k >= 0,
    ensures
        ({
            let after = clock.on_master(anchor, master, bars, now);
            let p = after.pulse->0;
            &&& after.pulse is Some
            &&& p.grid.beat_at(4 * (k * bars)) == anchor + k * master
            &&& p.next_at() >= now
            &&& p.next > 0 ==> p.grid.beat_at(p.next - 1) < now
            &&& p.forced_until == 0
            &&& !p.free_run
            &&& after.last_click == clock.last_click
            &&& after.bpm == clock.bpm
            &&& after.locked == clock.locked
        }),
{
    let g = Grid::master_grid(anchor, master, bars);
    g.law_beats_never_drift(k);
    assert(k * (4 * bars) == 4 * (k * bars)) by (nonlinear_arith);
    assert(k * g.den == k * (4 * bars));
    g.lemma_first_beat(now as int);
    g.lemma_first_beat_soon(now as int);
    let n = g.first_beat(now as int);
    if n > 0 {
        assert(g.beat_at(n - 1) < now);
    }
}

/// AUTO's pulse runs at the tempo from the onset, nothing counted; its first click is never too near another.
pub proof fn law_auto_beats_from_the_onset(clock: Clock, onset: Frame, now: Frame, k: int)
    requires
        clock.wf(),
        -2 * HORIZON <= onset <= 2 * HORIZON,
        grid::near(now as int),
        k >= 0,
    ensures
        ({
            let after = clock.auto_recording(onset, now);
            let p = after.pulse->0;
            &&& after.pulse is Some
            &&& p.grid.beat_at(k * clock.bpm) == onset + k * (60 * clock.sample_rate)
            &&& p.forced_until == 0
            &&& !p.free_run
            &&& p.next_at() >= now
            &&& p.next > 0 ==> p.grid.beat_at(p.next - 1) < now
            &&& after.last_click is None
            &&& after.bpm == clock.bpm
        }),
{
    let g = Grid::tempo_grid(onset, 0, clock.bpm, clock.sample_rate);
    assert(60 * clock.sample_rate <= u64::MAX);
    g.law_beats_never_drift(k);
    g.lemma_first_beat(now as int);
    let n = g.first_beat(now as int);
    if n > 0 {
        assert(g.beat_at(n - 1) < now);
    }
    lemma_beat_index(g, now);
}

/// The index of the first beat from a frame on fits.
proof fn lemma_beat_index(g: Grid, now: Frame)
    requires
        g.wf(),
        g.base_index == 0,
        g.den <= 300,
        g.num >= 300,
        -2 * HORIZON <= g.base_frame <= 2 * HORIZON,
        grid::near(now as int),
    ensures
        0 <= g.first_beat(now as int) <= u64::MAX,
{
    g.lemma_first_beat(now as int);
    let n = g.first_beat(now as int);
    let d = now - g.base_frame;
    let (num, den) = (g.num as int, g.den as int);
    if d > 0 {
        let top = (2 * d - 1) * den + 2 * num - 1;
        vstd::arithmetic::div_mod::lemma_fundamental_div_mod(top, 2 * num);
        vstd::arithmetic::div_mod::lemma_mod_bound(top, 2 * num);
        assert(n <= d + 1) by (nonlinear_arith)
            requires
                top == (2 * d - 1) * den + 2 * num - 1,
                top == (2 * num) * n + top % (2 * num),
                0 <= top % (2 * num),
                d > 0,
                0 < den <= 300,
                num >= 300,
        ;
    }
}

/// Free-running, the pulse beats at the tempo from the beat it would have fired next, which keeps its frame and its
/// place in the bar; a pulse that did not run yet beats from now on.
pub proof fn law_a_free_run_beats_at_the_tempo(clock: Clock, now: Frame, k: int)
    requires
        clock.wf(),
        grid::near(now as int),
        k >= 0,
    ensures
        ({
            let after = clock.free_running(now);
            let p = after.pulse->0;
            &&& after.pulse is Some
            &&& p.free_run
            &&& p.forced_until == 0
            &&& clock.pulse matches Some(q) ==> p.next == q.next && p.next_at() == q.next_at()
            &&& clock.pulse is None ==> p.next == 0 && p.next_at() == now
            &&& p.grid.beat_at(p.next + k * clock.bpm) == p.next_at() + k * (60 * clock.sample_rate)
            &&& after.bpm == clock.bpm
            &&& after.locked == clock.locked
        }),
{
    let after = clock.free_running(now);
    let g = after.pulse->0.grid;
    assert(60 * clock.sample_rate <= u64::MAX);
    if clock.pulse is Some {
        clock.law_free_run_carries_the_next_beat(now);
    }
    g.law_beats_never_drift(k);
    g.law_beats_never_drift(0);
    assert(0 * g.den == 0 && 0 * g.num == 0) by (nonlinear_arith);
}

} // verus!
