//! Time: what is scheduled, and what each scheduled frame does; and the settings.

use vstd::prelude::*;

use crate::api::{Event, LaneState, TRACK_COUNT};
use crate::autorec::{MAX_SENSITIVITY, MIN_SENSITIVITY};
use crate::control::{Control, Cx};
use crate::deck;
use crate::deck::{max_take_bars, Deck, Job, JobKind, Lane, World, MAX_FIXED_BARS};
use crate::float::{Double, Single, SINGLE_ONE_AND_A_HALF};
use crate::grid;
use crate::grid::{frames_per_bar, later_take_bars, max_whole_bars, Frame};
use crate::tasks;
use crate::timely;

verus! {

/// The earlier of two frames, where there are any.
pub open spec fn earlier_of(a: Option<Frame>, b: Option<Frame>) -> Option<Frame> {
    match (a, b) {
        (Some(x), Some(y)) => Some(if x <= y {
            x
        } else {
            y
        }),
        (Some(x), None) => Some(x),
        (None, y) => y,
    }
}

fn earlier(a: Option<Frame>, b: Option<Frame>) -> (r: Option<Frame>)
    ensures
        r == earlier_of(a, b),
{
    match (a, b) {
        (Some(x), Some(y)) => Some(if x <= y {
            x
        } else {
            y
        }),
        (Some(x), None) => Some(x),
        (None, y) => y,
    }
}


impl Control {
    /// The earliest frame something is scheduled for (a window edge, a loop-end stop, a boundary swap,
    /// a job completing); the caller skips what is not after the frame it renders.
    pub fn next_event(&self, cx: &Cx) -> (next: Option<Frame>)
        requires
            self.ready(*cx),
        ensures
            next is None ==> forall|f: Frame| !(#[trigger] self.world(*cx).scheduled(f)),
            next matches Some(n) ==> self.world(*cx).scheduled(n) && forall|f: Frame| #[trigger]
                self.world(*cx).scheduled(f) ==> n <= f,
    {
        let lanes: Option<Frame> = self.next_of_lanes();
        let edge: Option<Frame> = self.next_edge(cx);
        let jobs: Option<Frame> = self.next_of_jobs(cx);
        let next: Option<Frame> = earlier(earlier(lanes, edge), jobs);
        next
    }

    fn next_of_lanes(&self) -> (next: Option<Frame>)
        ensures
            next matches Some(n) ==> exists|k: int| 0 <= k < TRACK_COUNT && (#[trigger] self.deck.lanes@[k]).expects(n),
            forall|k: int, f: Frame|
                0 <= k < TRACK_COUNT && (#[trigger] self.deck.lanes@[k].expects(f)) ==> next is Some && next->0 <= f,
    {
        let mut next: Option<Frame> = None;
        let mut k: usize = 0;
        while k < TRACK_COUNT
            invariant
                k <= TRACK_COUNT,
                next matches Some(n) ==> exists|j: int| 0 <= j < k && (#[trigger] self.deck.lanes@[j]).expects(n),
                forall|j: int, f: Frame|
                    0 <= j < k && (#[trigger] self.deck.lanes@[j].expects(f)) ==> next is Some && next->0 <= f,
            decreases TRACK_COUNT - k,
        {
            let t = self.deck.lanes[k];
            assert(t == self.deck.lanes@[k as int]);
            next = earlier(next, earlier(t.stop_at, t.switch_at));
            k = k + 1;
        }
        next
    }

    fn next_edge(&self, cx: &Cx) -> (next: Option<Frame>)
        requires
            self.ready(*cx),
        ensures
            next matches Some(n) ==> self.world(*cx).edge_at(n),
            forall|f: Frame| #[trigger] self.world(*cx).edge_at(f) ==> next is Some && next->0 <= f,
    {
        match self.deck.rec {
            Some(r) => {
                proof {
                    self.world(*cx).lemma_rec(cx.now);
                }
                let start: Option<Frame> = if self.deck.lanes[r.lane].armed {
                    r.start
                } else {
                    None
                };
                earlier(start, r.end)
            },
            None => None,
        }
    }

    fn next_of_jobs(&self, cx: &Cx) -> (next: Option<Frame>)
        requires
            self.ready(*cx),
        ensures
            next matches Some(n) ==> exists|k: int| 0 <= k < self.jobs@.len() && deck::done_on(#[trigger] self.jobs@[k], n),
            forall|k: int, f: Frame|
                0 <= k < self.jobs@.len() && (#[trigger] deck::done_on(self.jobs@[k], f)) ==> next is Some && next->0
                    <= f,
    {
        let mut next: Option<Frame> = None;
        let mut k: usize = 0;
        while k < self.jobs.len()
            invariant
                k <= self.jobs@.len(),
                self.ready(*cx),
                next matches Some(n) ==> exists|j: int| 0 <= j < k && deck::done_on(#[trigger] self.jobs@[j], n),
                forall|j: int, f: Frame|
                    0 <= j < k && (#[trigger] deck::done_on(self.jobs@[j], f)) ==> next is Some && next->0 <= f,
            decreases self.jobs@.len() - k,
        {
            proof {
                reveal(deck::jobs_ok);
            }
            let done: Option<Frame> = match self.jobs[k] {
                Some(job) => Some(job.done_frame()),
                None => None,
            };
            assert(done matches Some(d) ==> deck::done_on(self.jobs@[k as int], d));
            next = earlier(next, done);
            k = k + 1;
        }
        next
    }

    /// The lanes' swaps and loop-end stops that are due.
    pub fn lanes_due(&mut self, cx: &mut Cx)
        requires
            old(self).ready(*old(cx)),
        ensures
            final(self).ready(*final(cx)),
            final(cx).when(*old(cx)),
            final(self).deck.capacity == old(self).deck.capacity,
            final(self).world(*final(cx)) == old(self).world(*old(cx)).lanes_due(old(cx).now, 0),
            final(self).world(*final(cx)).lanes_past(old(cx).now),
            old(self).world(*old(cx)).timely(old(cx).now) ==> final(self).world(*final(cx)).timely(old(cx).now),
    {
        let ghost w0 = self.world(*cx);
        let ghost cx0 = *cx;
        let mut k: usize = 0;
        while k < TRACK_COUNT
            invariant
                k <= TRACK_COUNT,
                self.ready(*cx),
                cx.when(cx0),
                self.deck.capacity == old(self).deck.capacity,
                w0.lanes_due(cx0.now, 0) == self.world(*cx).lanes_due(cx0.now, k as int),
                forall|j: int| 0 <= j < k ==> timely::calm_lane(#[trigger] self.deck.lanes@[j], cx0.now),
                w0.timely(cx0.now) ==> self.world(*cx).timely(cx0.now),
            decreases TRACK_COUNT - k,
        {
            proof {
                self.world(*cx).lemma_lane_due_calm(cx.now, k as int);
            }
            self.lane_due(cx, k);
            k = k + 1;
        }
    }

    fn lane_due(&mut self, cx: &mut Cx, k: usize)
        requires
            k < TRACK_COUNT,
            old(self).ready(*old(cx)),
        ensures
            final(self).ready(*final(cx)),
            final(cx).when(*old(cx)),
            final(self).deck.capacity == old(self).deck.capacity,
            final(self).world(*final(cx)) == old(self).world(*old(cx)).lane_due(old(cx).now, k as int),
    {
        reveal(World::lane_due);
        let t = self.deck.lanes[k];
        let swaps: bool = match t.switch_at {
            Some(at) => at <= cx.now,
            None => false,
        };
        if swaps {
            proof {
                self.world(*cx).lemma_swapped(cx.now, k as int);
            }
            let mut u = t;
            u.audible = t.logical();
            u.switch_at = None;
            self.deck.lanes[k] = u;
        }
        let stops: bool = match t.stop_at {
            Some(at) => at <= cx.now,
            None => false,
        };
        if stops {
            self.stop(cx, k);
        }
    }

    /// What the end of the job in slot `k` brings about.
    pub fn bring_about(&mut self, cx: &mut Cx, k: usize, job: &Job)
        requires
            old(self).ready(*old(cx)),
            k < old(self).jobs@.len(),
            old(self).jobs@[k as int] == Some(*job),
            job.done_at() <= old(cx).now,
        ensures
            final(self).ready(*final(cx)),
            final(cx).when(*old(cx)),
            final(self).deck.capacity == old(self).deck.capacity,
            final(self).world(*final(cx)) == old(self).world(*old(cx)).job_brought(old(cx).now, *job),
    {
        reveal(World::job_brought);
        proof {
            let w = old(self).world(*old(cx));
            w.lemma_job_known(cx.now, k as int);
            w.lemma_lane(cx.now, job.lane as int);
            tasks::lemma_rests_due(w.deck, w.jobs, k as int, cx.now);
        }
        match job.kind {
            JobKind::Restore { prev_undo_valid, prev_spare_reversed, .. } => {
                self.restore_undo(cx, job.lane, prev_undo_valid, prev_spare_reversed);
            },
            JobKind::LaneCopy { from, to, resume, .. } => {
                cx.feed.push(Event::Copied { frame: cx.now, from: from as u8, to: to as u8 });
                if resume && self.deck.lanes[to].state == LaneState::Stopped {
                    assert(self.ready(*cx));
                    self.resume(cx, to, true);
                }
            },
            JobKind::Fill { buf, fill } => {
                let mut t = self.deck.lanes[job.lane];
                if t.committed() && t.live == buf && t.length % fill.master == 0 {
                    t.period = fill.master;
                    self.deck.lanes[job.lane] = t;
                }
            },
            JobKind::Copy { .. } => {},
        }
        proof {
            old(self).world(*old(cx)).lemma_job_brought(cx.now, k as int);
        }
    }

    /// The recorder's edges that are due: a commit can hand the recorder on at the very same frame.
    pub fn edges_due(&mut self, cx: &mut Cx)
        requires
            old(self).ready(*old(cx)),
        ensures
            final(self).ready(*final(cx)),
            final(cx).when(*old(cx)),
            final(self).deck.capacity == old(self).deck.capacity,
            final(self).world(*final(cx)) == old(self).world(*old(cx)).edges_due(old(cx).now, old(cx).align, 4),
            ({
                let (w, after, now) = (old(self).world(*old(cx)), final(self).world(*final(cx)), old(cx).now);
                w.timely(now) && w.lanes_past(now) && timely::jobs_past(w.jobs, now) ==> after.all_past(now)
            }),
    {
        let ghost w0 = self.world(*cx);
        let ghost cx0 = *cx;
        let mut rounds: usize = 4;
        while rounds > 0
            invariant
                rounds <= 4,
                w0 == old(self).world(*old(cx)),
                cx0 == *old(cx),
                self.ready(*cx),
                cx.when(cx0),
                self.deck.capacity == old(self).deck.capacity,
                w0.edges_due(cx0.now, cx0.align, 4) == self.world(*cx).edges_due(cx0.now, cx0.align, rounds as nat),
                w0.timely(cx0.now) ==> self.world(*cx).edges_left(cx0.now) < rounds,
                w0.lanes_past(cx0.now) ==> self.world(*cx).lanes_past(cx0.now),
                timely::jobs_past(w0.jobs, cx0.now) ==> timely::jobs_past(self.world(*cx).jobs, cx0.now),
            decreases rounds,
        {
            if self.deck.rec.is_none() {
                return;
            }
            let more: bool = self.edge_due(cx);
            if !more {
                return;
            }
            rounds = rounds - 1;
        }
    }

    /// One edge of the recorder's window; whether the window ended.
    #[verifier::spinoff_prover]
    #[verifier::rlimit(50)]
    fn edge_due(&mut self, cx: &mut Cx) -> (ended: bool)
        requires
            old(self).ready(*old(cx)),
            old(self).deck.rec is Some,
        ensures
            final(self).ready(*final(cx)),
            final(cx).when(*old(cx)),
            final(self).deck.capacity == old(self).deck.capacity,
            ended == old(self).world(*old(cx)).window_ended(old(cx).now),
            final(self).world(*final(cx)) == old(self).world(*old(cx)).edge_due(old(cx).now, old(cx).align),
            ({
                let (w, after, now) = (old(self).world(*old(cx)), final(self).world(*final(cx)), old(cx).now);
                &&& ended && w.edges_left(now) <= 2 ==> after.edges_left(now) < w.edges_left(now)
                &&& !ended ==> after.edges_past(now)
                &&& w.lanes_past(now) ==> after.lanes_past(now)
                &&& timely::jobs_past(w.jobs, now) ==> timely::jobs_past(after.jobs, now)
            }),
    {
        reveal(World::edge_due);
        let ghost w0 = self.world(*cx);
        proof {
            w0.lemma_rec(cx.now);
            w0.lemma_opened(cx.now);
        }
        let rec = self.deck.rec.unwrap();
        let i: usize = rec.lane;
        let t = self.deck.lanes[i];
        let opens: bool = match rec.start {
            Some(s) => t.armed && s <= cx.now,
            None => false,
        };
        if opens {
            let mut u = t;
            u.armed = false;
            u.written = 0;
            self.deck.lanes[i] = u;
        }
        let ended: bool = match rec.end {
            Some(e) => e <= cx.now && !t.auto_armed,
            None => false,
        };
        let ghost w1 = self.world(*cx);
        if ended {
            if rec.roll.is_some() {
                self.complete_pass(cx);
            } else {
                self.finish_capture(cx, i);
            }
        }
        proof {
            if ended && rec.roll is None {
                w1.lemma_finished_calm(cx.now, cx.align, i as int);
            } else if ended {
                reveal(World::pass_completed);
            }
            let after = self.world(*cx);
            if after.deck.rec is Some {
                after.lemma_rec(cx.now);
                after.lemma_lane(cx.now, after.deck.rec->0.lane as int);
            }
            w0.lemma_lane(cx.now, i as int);
            if w0.lanes_past(cx.now) {
                assert(timely::quieter(w0, after));
                w0.lemma_quieter(after, cx.now);
            }
        }
        ended
    }

    /// The transport is audibly alive (the click is a transport mode): until `Frame::MAX` while a lane
    /// records or overdubs, else until the latest loop-end stop of a playing lane; `None` when idle.
    pub fn transport_until(&self, cx: &Cx) -> (until: Option<Frame>)
        ensures
            until == self.world(*cx).transport_end(),
            until is None ==> forall|k: int| 0 <= k < TRACK_COUNT ==> (#[trigger] self.world(*cx).alive_until(k)) is None,
            until matches Some(f) ==> {
                &&& exists|k: int| 0 <= k < TRACK_COUNT && #[trigger] self.world(*cx).alive_until(k) == Some(f)
                &&& forall|k: int|
                    0 <= k < TRACK_COUNT && (#[trigger] self.world(*cx).alive_until(k)) is Some ==> self.world(
                        *cx,
                    ).alive_until(k)->0 <= f
            },
    {
        let mut until: Option<Frame> = None;
        let mut k: usize = 0;
        while k < TRACK_COUNT
            invariant
                k <= TRACK_COUNT,
                until == self.world(*cx).alive_before(k as int),
                until is None ==> forall|j: int| 0 <= j < k ==> (#[trigger] self.world(*cx).alive_until(j)) is None,
                until matches Some(f) ==> {
                    &&& exists|j: int| 0 <= j < k && #[trigger] self.world(*cx).alive_until(j) == Some(f)
                    &&& forall|j: int|
                        0 <= j < k && (#[trigger] self.world(*cx).alive_until(j)) is Some ==> self.world(
                            *cx,
                        ).alive_until(j)->0 <= f
                },
            decreases TRACK_COUNT - k,
        {
            let here: Option<Frame> = self.lane_alive(cx, k);
            until = match (until, here) {
                (Some(f), Some(g)) => Some(if f < g {
                    g
                } else {
                    f
                }),
                (None, h) => h,
                (u, None) => u,
            };
            k = k + 1;
        }
        until
    }

    fn lane_alive(&self, cx: &Cx, i: usize) -> (until: Option<Frame>)
        requires
            i < TRACK_COUNT,
        ensures
            until == self.world(*cx).alive_until(i as int),
    {
        let t = self.deck.lanes[i];
        let silenced: bool = match self.deck.rec {
            Some(r) => r.stop_playback && r.lane == i && self.deck.master > 0,
            None => false,
        };
        if silenced {
            None
        } else if (t.state == LaneState::Recording && !t.auto_armed) || t.state == LaneState::Overdubbing {
            Some(i64::MAX)
        } else if t.state == LaneState::Playing {
            match t.stop_at {
                Some(at) => Some(at),
                None => Some(i64::MAX),
            }
        } else {
            None
        }
    }

    /// An input gap just before `frame`: a capture whose window it falls inside is damaged; AUTO drops
    /// the history it can no longer join.
    pub fn input_gap(&mut self, cx: &Cx, frame: Frame)
        requires
            old(self).ready(*cx),
        ensures
            final(self).ready(*cx),
            final(self).deck.capacity == old(self).deck.capacity,
            final(self).world(*cx) == old(self).world(*cx).gapped(frame),
    {
        let mut rec = match self.deck.rec {
            Some(r) => r,
            None => {
                return;
            },
        };
        proof {
            self.world(*cx).lemma_rec(cx.now);
        }
        if self.deck.lanes[rec.lane].auto_armed {
            self.detector.reset();
            return;
        }
        let started: bool = match rec.start {
            Some(s) => frame > s,
            None => false,
        };
        let open: bool = match rec.end {
            Some(e) => frame < e,
            None => true,
        };
        if started && open {
            rec.damaged = true;
            proof {
                self.world(*cx).lemma_rec_changed(rec, cx.now);
            }
            self.deck.rec = Some(rec);
        }
    }

    // ── Settings ───────────────────────────────────────────────────────────────────────────────────

    pub fn set_loop_end_stop(&mut self, on: bool)
        ensures
            final(self).deck == (Deck { loop_end_stop: on, ..old(self).deck }),
            final(self).jobs == old(self).jobs,
            final(self).detector == old(self).detector,
    {
        self.deck.loop_end_stop = on;
    }

    pub fn set_fixed_length(&mut self, on: bool)
        ensures
            final(self).deck == (Deck { fixed_length: on, ..old(self).deck }),
            final(self).jobs == old(self).jobs,
            final(self).detector == old(self).detector,
    {
        self.deck.fixed_length = on;
    }

    /// The FIXED bar count: rounded and kept within 1 and 32; one bar for no number.
    pub fn set_fixed_bars(&mut self, bars: Double)
        ensures
            final(self).deck == (Deck { fixed_bars: final(self).deck.fixed_bars, ..old(self).deck }),
            final(self).deck.fixed_bars == (if bars.finite() {
                grid::min_int(grid::max_int(bars.rounded(), 1), MAX_FIXED_BARS as int)
            } else {
                1
            }),
            final(self).jobs == old(self).jobs,
            final(self).detector == old(self).detector,
    {
        self.deck.fixed_bars = if bars.is_finite() {
            bars.round_within(1, 32) as Frame
        } else {
            1
        };
    }

    pub fn fixed_bars(&self) -> (bars: Frame)
        ensures
            bars == self.deck.fixed_bars,
    {
        self.deck.fixed_bars
    }

    pub fn set_retake(&mut self, on: bool)
        ensures
            final(self).deck == (Deck { retake: on, ..old(self).deck }),
            final(self).jobs == old(self).jobs,
            final(self).detector == old(self).detector,
    {
        self.deck.retake = on;
    }

    pub fn set_auto_record(&mut self, on: bool)
        ensures
            final(self).deck == (Deck { auto_record: on, ..old(self).deck }),
            final(self).jobs == old(self).jobs,
            final(self).detector == old(self).detector,
    {
        self.deck.auto_record = on;
    }

    /// AUTO's sensitivity: rounded and kept within its range; what it was, for no number.
    pub fn set_auto_sensitivity(&mut self, s: Double)
        requires
            MIN_SENSITIVITY <= old(self).deck.auto_sensitivity <= MAX_SENSITIVITY,
        ensures
            final(self).deck == (Deck { auto_sensitivity: final(self).deck.auto_sensitivity, ..old(self).deck }),
            final(self).deck.auto_sensitivity == (if s.finite() {
                grid::min_int(grid::max_int(s.rounded(), MIN_SENSITIVITY as int), MAX_SENSITIVITY as int)
            } else {
                old(self).deck.auto_sensitivity as int
            }),
            final(self).jobs == old(self).jobs,
            final(self).detector == old(self).detector,
    {
        if s.is_finite() {
            self.deck.auto_sensitivity = s.round_within(MIN_SENSITIVITY, MAX_SENSITIVITY);
        }
    }

    /// The largest FIXED bar count the next take can use: on a master of whole bars the largest multiple of
    /// it that fits the buffer and FIXED, on another the bars it has, without one 32.
    pub fn next_take_max_bars(&self, bpm: u32) -> (bars: Frame)
        requires
            grid::MIN_BPM <= bpm <= grid::MAX_BPM,
            self.deck.settings_ok(),
        ensures
            bars == self.deck.longest_take(grid::bar_frames(bpm as int, self.deck.sample_rate as int)),
    {
        if self.deck.master > 0 {
            proof {
                grid::lemma_bar_bounds(bpm as int, self.deck.sample_rate as int);
            }
            let fpb: Frame = frames_per_bar(bpm, self.deck.sample_rate);
            if self.deck.master % fpb == 0 {
                return later_take_bars(MAX_FIXED_BARS, self.deck.master / fpb, max_take_bars(self.deck.capacity, fpb));
            }
            let most: Frame = max_whole_bars(self.deck.master, fpb);
            if most < MAX_FIXED_BARS {
                most
            } else {
                MAX_FIXED_BARS
            }
        } else {
            MAX_FIXED_BARS
        }
    }

    /// A lane's volume: within 0 and 1.5, silent for no number.
    pub fn set_volume(&mut self, i: usize, v: Single)
        requires
            i < TRACK_COUNT,
        ensures
            final(self).deck == (Deck {
                lanes: vstd::array::spec_array_update(
                    old(self).deck.lanes,
                    i as int,
                    Lane { volume: v.level(SINGLE_ONE_AND_A_HALF), ..old(self).deck.lanes@[i as int] },
                ),
                ..old(self).deck
            }),
            final(self).jobs == old(self).jobs,
            final(self).detector == old(self).detector,
    {
        let mut t = self.deck.lanes[i];
        t.volume = v.to_level(SINGLE_ONE_AND_A_HALF);
        self.deck.lanes[i] = t;
    }

    pub fn set_mute(&mut self, i: usize, on: bool)
        requires
            i < TRACK_COUNT,
        ensures
            final(self).deck == (Deck {
                lanes: vstd::array::spec_array_update(
                    old(self).deck.lanes,
                    i as int,
                    Lane { muted: on, ..old(self).deck.lanes@[i as int] },
                ),
                ..old(self).deck
            }),
            final(self).jobs == old(self).jobs,
            final(self).detector == old(self).detector,
    {
        let mut t = self.deck.lanes[i];
        t.muted = on;
        self.deck.lanes[i] = t;
    }
}

} // verus!
