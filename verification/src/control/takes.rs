//! Takes and overdubs: arming, bounding, committing, rejecting and stopping a capture.

use vstd::prelude::*;

use crate::api::{Event, LaneState, TRACK_COUNT};
use crate::control::{Control, Cx};
use crate::deck;
use crate::deck::{max_take_bars, JobKind, Kind, Lane, Recorder, Roll, Visit, World};
use crate::grid;
use crate::grid::{clamp_bars, commit_anchor, div_floor, later_take_bars, loop_pos, max_whole_bars, next_boundary, plan_commit, plan_free_stop, plan_later_stop,
    plan_retake_stop, Frame, Grid, RetakeStop, TakeFill, COUNT_IN_BEATS, HORIZON, LOOP_LIMIT,
};
use crate::keeps;
use crate::tasks;

verus! {

impl Control {
    /// Bound the take at the master, the FIXED bar count or the buffer; RETAKE rolls a known length.
    pub(crate) fn configure_end(&mut self, cx: &Cx)
        requires
            old(self).sound(*cx),
            old(self).deck.rec is Some,
            old(self).deck.rec->0.start is Some,
            deck::kept(old(self).deck.rec->0.start->0 as int),
        ensures
            final(self).sound(*cx),
            final(self).deck.capacity == old(self).deck.capacity,
            final(self).world(*cx) == old(self).world(*cx).end_configured(),
            0 <= old(self).world(*cx).take_frames() <= old(self).deck.capacity,
    {
        reveal(deck::take_bound);
        let ghost w = self.world(*cx);
        let master: Frame = self.deck.master;
        let frames: Frame = if self.deck.fixed_length && (master == 0 || !self.deck.retake) {
            let fpb: Frame = self.fpb(cx);
            if master > 0 && master % fpb == 0 {
                // Past the loop in whole loops: the take will multiply it.
                proof {
                    keeps::lemma_later_bars_fit(
                        self.deck.fixed_bars as int,
                        fpb as int,
                        master as int,
                        self.deck.capacity,
                    );
                }
                later_take_bars(self.deck.fixed_bars, master / fpb, max_take_bars(self.deck.capacity, fpb)) * fpb
            } else {
                let most: Frame = if master > 0 {
                    master
                } else {
                    self.deck.capacity
                };
                let bars: Frame = clamp_bars(self.deck.fixed_bars, max_whole_bars(most, fpb));
                proof {
                    grid::lemma_whole_bars_fit(bars as int, most as int, fpb as int, self.deck.capacity as int);
                }
                bars * fpb
            }
        } else if master > 0 {
            master
        } else {
            self.deck.capacity
        };
        assert(frames == w.take_frames());
        let roll: bool = self.deck.retake && (master > 0 || self.deck.fixed_length);
        match self.deck.rec {
            Some(mut rec) => {
                match rec.start {
                    Some(start) => {
                        rec.end = Some(start + frames);
                        if roll {
                            rec.roll = Some(Roll { pass: 1, kept: false });
                        }
                        self.deck.rec = Some(rec);
                    },
                    None => {},
                }
            },
            None => {},
        }
    }

    /// Start a take on lane `i`. `seam`: a RETAKE handoff begins exactly where the approved take's pass
    /// ended.
    pub(crate) fn start_recording(&mut self, cx: &mut Cx, i: usize, seam: Option<Frame>)
        requires
            i < TRACK_COUNT,
            old(self).ready(*old(cx)),
            old(self).deck.rec is None ==> keeps::no_restore(old(self).jobs@) && old(self).deck.lanes@[i as int].state
                == LaneState::Empty,
            seam matches Some(f) ==> old(self).deck.master > 0 && -2 * HORIZON + 4 * LOOP_LIMIT <= f <= HORIZON
                + 3 * LOOP_LIMIT,
        ensures
            final(self).ready(*final(cx)),
            final(cx).when(*old(cx)),
            final(self).deck.capacity == old(self).deck.capacity,
            final(self).world(*final(cx)) == old(self).world(*old(cx)).recording(
                old(cx).now,
                old(cx).align,
                i as int,
                seam,
            ),
    {
        reveal(World::recording);
        if self.deck.rec.is_some() {
            return;
        }
        if self.deck.master > 0 {
            self.arm_later(cx, i, seam);
        } else if self.deck.auto_record {
            self.arm_auto(cx, i);
        } else {
            self.arm_first(cx, i);
        }
        proof {
            old(self).world(*old(cx)).lemma_recording(cx.now, cx.align, i as int, seam);
        }
    }

    /// AUTO replaces only the first-track count-in: no click, no tempo lock, no length until the input
    /// triggers.
    pub(crate) fn arm_auto(&mut self, cx: &mut Cx, i: usize)
        requires
            i < TRACK_COUNT,
            old(self).sound(*old(cx)),
        ensures
            final(self).steady(*final(cx), *old(cx)),
            final(self).deck.capacity == old(self).deck.capacity,
            final(self).world(*final(cx)) == old(self).world(*old(cx)).armed_auto(old(cx).align, i as int),
    {
        self.detector.reset();
        let mut t = self.deck.lanes[i];
        t.written = 0;
        t.armed = false;
        t.auto_armed = true;
        t.period = t.length;
        t.state = LaneState::Recording;
        self.deck.lanes[i] = t;
        self.deck.rec = Some(Recorder::new(i, Kind::Take, cx.align));
    }

    /// One bar of count-in from the press; the take starts on the downbeat after it.
    pub(crate) fn arm_first(&mut self, cx: &mut Cx, i: usize)
        requires
            i < TRACK_COUNT,
            old(self).sound(*old(cx)),
        ensures
            final(self).steady(*final(cx), *old(cx)),
            final(self).deck.capacity == old(self).deck.capacity,
            final(self).world(*final(cx)) == old(self).world(*old(cx)).armed_first(
                old(cx).now,
                old(cx).align,
                i as int,
            ),
    {
        let grid = Grid::tempo(cx.now, 0, cx.clock.bpm(), self.deck.sample_rate);
        proof {
            grid::lemma_count_in(grid, cx.clock.bpm, cx.clock.sample_rate);
        }
        let downbeat: Frame = grid.beat_frame(COUNT_IN_BEATS);
        cx.clock.start_count_in(cx.now, COUNT_IN_BEATS, cx.now);
        cx.clock.set_locked(true);
        let mut t = self.deck.lanes[i];
        t.written = 0;
        t.armed = true;
        t.auto_armed = false;
        t.period = t.length;
        t.state = LaneState::Recording;
        self.deck.lanes[i] = t;
        let mut rec = Recorder::new(i, Kind::Take, cx.align);
        rec.downbeat = Some(downbeat);
        rec.start = Some(downbeat + rec.align);
        self.deck.rec = Some(rec);
        self.configure_end(cx);
    }

    /// A later take starts on the next loop boundary, or on its seam.
    pub(crate) fn arm_later(&mut self, cx: &mut Cx, i: usize, seam: Option<Frame>)
        requires
            i < TRACK_COUNT,
            old(self).sound(*old(cx)),
            old(self).deck.master > 0,
            seam matches Some(f) ==> deck::kept(f as int),
        ensures
            final(self).steady(*final(cx), *old(cx)),
            final(self).deck.capacity == old(self).deck.capacity,
            final(self).world(*final(cx)) == old(self).world(*old(cx)).armed_later(
                old(cx).now,
                old(cx).align,
                i as int,
                seam,
            ),
    {
        let mut rec = Recorder::new(i, Kind::Take, cx.align);
        match seam {
            Some(f) => {
                rec.start = Some(f);
            },
            None => {
                proof {
                    grid::law_next_boundary_is_the_first_loop_start(
                        self.deck.anchor as int,
                        self.deck.master as int,
                        cx.now as int,
                    );
                }
                let boundary: Frame = next_boundary(self.deck.anchor, self.deck.master, cx.now);
                rec.start = Some(boundary + rec.align);
            },
        }
        let mut t = self.deck.lanes[i];
        t.written = 0;
        t.armed = true;
        t.auto_armed = false;
        t.period = t.length;
        t.state = LaneState::Recording;
        self.deck.lanes[i] = t;
        self.deck.rec = Some(rec);
        self.configure_end(cx);
    }

    pub(crate) fn retake_plan(&self, cx: &Cx, rec: &Recorder) -> (plan: RetakeStop)
        requires
            self.sound(*cx),
            0 <= rec.align <= LOOP_LIMIT,
            rec.end matches Some(e) && -2 * HORIZON <= e <= 4 * HORIZON,
        ensures
            plan == self.world(*cx).retake_plan(cx.now, *rec),
    {
        let kept: bool = match rec.roll {
            Some(r) => r.kept,
            None => false,
        };
        plan_retake_stop(cx.now + rec.align, rec.end.unwrap(), self.fpb(cx), kept)
    }

    /// A first take of `raw` frames makes the master.
    pub(crate) fn make_master(&mut self, cx: &mut Cx, downbeat: Option<Frame>, raw: Frame)
        requires
            old(self).sound(*old(cx)),
            old(self).deck.master == 0,
            0 <= raw,
            downbeat matches Some(d) ==> -3 * HORIZON <= d <= 3 * HORIZON,
        ensures
            final(self).steady(*final(cx), *old(cx)),
            final(self).deck.capacity == old(self).deck.capacity,
            final(self).deck.master > 0,
            final(self).world(*final(cx)) == old(self).world(*old(cx)).master_made(old(cx).now, downbeat, raw),
    {
        reveal(World::master_made);
        let fpb: Frame = self.fpb(cx);
        proof {
            vstd::arithmetic::div_mod::lemma_div_pos_is_pos(self.deck.capacity as int, fpb as int);
            grid::lemma_whole_bars_fit(
                grid::commit_bars(raw as int, fpb as int, self.deck.capacity as int),
                self.deck.capacity as int,
                fpb as int,
                self.deck.capacity as int,
            );
        }
        let plan = plan_commit(raw, cx.clock.bpm(), self.deck.sample_rate, self.deck.capacity);
        proof {
            lemma_bars_are_beats(plan.bars as int, fpb as int);
            if downbeat is Some {
                grid::law_commit_anchor_on_the_count_grid(downbeat->0, plan.master as int, cx.now as int);
            }
        }
        self.deck.master = plan.master;
        self.deck.anchor = commit_anchor(downbeat, plan.master, cx.now);
        cx.clock.set_locked(true);
        cx.clock.start_master(self.deck.anchor, plan.master, plan.bars, cx.now);
    }

    /// Lay a take on its lane as `fill` says.
    pub(crate) fn lay_take(&mut self, cx: &Cx, i: usize, stop_playback: bool, fill: TakeFill)
        requires
            i < TRACK_COUNT,
            old(self).sound(*cx),
            old(self).deck.master > 0,
            fill.raw >= 0,
            fill.period >= 0,
        ensures
            final(self).sound(*cx),
            final(self).deck.capacity == old(self).deck.capacity,
            final(self).world(*cx) == old(self).world(*cx).take_laid(cx.now, i as int, stop_playback, fill),
    {
        reveal(World::take_laid);
        let master: Frame = self.deck.master;
        let reader: Frame = loop_pos(cx.now, self.deck.anchor, master);
        let mut t = self.deck.lanes[i];
        t.length = master;
        t.period = master;
        t.written = master;
        t.armed = false;
        t.audible = t.logical();
        t.state = if stop_playback {
            LaneState::Stopped
        } else {
            LaneState::Playing
        };
        self.deck.lanes[i] = t;
        let lo: Frame = fill.untouched();
        if lo < master {
            // Start where playback reads next, so the fill stays ahead of it.
            let off: Frame = if reader >= lo {
                reader - lo
            } else {
                0
            };
            let buf: usize = t.live;
            self.push_job(cx.now, i, JobKind::Fill { buf, fill }, Visit { lo, span: master - lo, off, modulus: master });
        }
    }

    /// Is a job at work on lane `k`?
    fn has_job(&self, k: usize) -> (r: bool)
        requires
            k < TRACK_COUNT,
        ensures
            r == deck::busy(self.jobs@, k as int),
    {
        let mut j: usize = 0;
        while j < self.jobs.len()
            invariant
                j <= self.jobs@.len(),
                forall|n: int| 0 <= n < j && (#[trigger] self.jobs@[n]) is Some ==> self.jobs@[n]->0.lane != k,
            decreases self.jobs@.len() - j,
        {
            match self.jobs[j] {
                Some(job) => {
                    if job.lane == k {
                        assert(self.jobs@[j as int]->0.lane == k);
                        return true;
                    }
                },
                None => {},
            }
            j = j + 1;
        }
        false
    }

    /// Start to fill the rest of one of lane `k`'s buffers with the loop it holds.
    fn repeat(&mut self, cx: &Cx, k: usize, buf: usize)
        requires
            k < TRACK_COUNT,
            0 < old(self).deck.lanes@[k as int].period <= old(self).deck.lanes@[k as int].length,
        ensures
            final(self).detector == old(self).detector,
            final(self).deck == old(self).deck,
            final(self).world(*cx) == old(self).world(*cx).repeated(cx.now, k as int, buf),
    {
        let t = self.deck.lanes[k];
        let fill: TakeFill = TakeFill::extend(t.period, t.length);
        self.push_job(
            cx.now,
            k,
            JobKind::Fill { buf, fill },
            Visit { lo: t.period, span: t.length - t.period, off: 0, modulus: t.length },
        );
    }

    /// A committed lane that holds a shorter loop than its length, with no job on it, starts to repeat it.
    pub(crate) fn catch_up(&mut self, cx: &Cx, k: usize)
        requires
            k < TRACK_COUNT,
            old(self).deck.lanes@[k as int].is_committed() ==> 0 < old(self).deck.lanes@[k as int].period
                <= old(self).deck.lanes@[k as int].length,
        ensures
            final(self).detector == old(self).detector,
            final(self).deck == old(self).deck,
            final(self).world(*cx) == old(self).world(*cx).caught_up(cx.now, k as int),
    {
        reveal(World::caught_up);
        let t = self.deck.lanes[k];
        if t.committed() && t.period < t.length && !self.has_job(k) {
            if t.undo_valid {
                self.repeat(cx, k, t.spare);
            }
            self.repeat(cx, k, t.live);
        }
    }

    /// Make every committed lane but `i` as long as the master.
    pub(crate) fn lengthen(&mut self, cx: &Cx, i: usize)
        requires
            i < TRACK_COUNT,
            old(self).sound(*cx),
            old(self).deck.master > 0,
            forall|j: int|
                0 <= j < TRACK_COUNT && j != i && (#[trigger] old(self).deck.lanes@[j]).is_committed() ==> 0
                    < old(self).deck.lanes@[j].period <= old(self).deck.master,
        ensures
            final(self).sound(*cx),
            final(self).deck.capacity == old(self).deck.capacity,
            final(self).world(*cx) == old(self).world(*cx).lengthened(cx.now, 0, i as int),
    {
        let ghost w = self.world(*cx);
        let mut k: usize = 0;
        while k < TRACK_COUNT
            invariant
                k <= TRACK_COUNT,
                i < TRACK_COUNT,
                self.sound(*cx),
                self.deck.master > 0,
                self.deck.capacity == old(self).deck.capacity,
                w.lengthened(cx.now, 0, i as int) == self.world(*cx).lengthened(cx.now, k as int, i as int),
                forall|j: int|
                    k <= j < TRACK_COUNT && j != i && (#[trigger] self.deck.lanes@[j]).is_committed() ==> 0
                        < self.deck.lanes@[j].period <= self.deck.master,
            decreases TRACK_COUNT - k,
        {
            if k != i && self.deck.lanes[k].committed() {
                let mut t = self.deck.lanes[k];
                t.length = self.deck.master;
                self.deck.lanes[k] = t;
                self.catch_up(cx, k);
            }
            k = k + 1;
        }
    }

    /// A take past the master multiplies it: the master is `loops` times as long, anchored where the take
    /// began.
    pub(crate) fn multiply(&mut self, cx: &mut Cx, downbeat: Frame, loops: Frame)
        requires
            old(self).sound(*old(cx)),
            old(self).deck.master > 0,
            old(self).deck.master as int % old(self).world(*old(cx)).fpb() == 0,
            loops >= 2,
            loops * old(self).deck.master <= old(self).deck.capacity,
            -2 * HORIZON + 3 * LOOP_LIMIT <= downbeat <= 2 * HORIZON,
        ensures
            final(self).steady(*final(cx), *old(cx)),
            final(self).deck.capacity == old(self).deck.capacity,
            final(self).deck.master == loops * old(self).deck.master,
            final(self).deck.lanes == old(self).deck.lanes,
            final(self).world(*final(cx)) == old(self).world(*old(cx)).multiplied(
                old(cx).now,
                downbeat as int,
                loops as int,
            ),
    {
        reveal(World::multiplied);
        let fpb: Frame = self.fpb(cx);
        let old_master: Frame = self.deck.master;
        let d: Frame = downbeat - self.deck.anchor;
        proof {
            let (m, f, a) = (old_master as int, fpb as int, d as int);
            vstd::arithmetic::div_mod::lemma_fundamental_div_mod(a, m);
            assert(a - m < a / m * m <= a) by (nonlinear_arith)
                requires
                    a == m * (a / m) + a % m,
                    0 <= a % m < m,
            ;
            vstd::arithmetic::div_mod::lemma_fundamental_div_mod(m, f);
            let b = m / f;
            assert(b >= 1) by (nonlinear_arith)
                requires
                    m == f * b + 0,
                    m > 0,
                    f > 0,
            ;
            assert(loops * m == (loops * b) * f && loops * b >= 1 && loops * m >= m) by (nonlinear_arith)
                requires
                    m == f * b + 0,
                    loops >= 2,
                    b >= 1,
                    m >= 1,
            ;
            vstd::arithmetic::div_mod::lemma_div_multiples_vanish(loops * b, f);
            assert((loops * b) * f == f * (loops * b)) by (nonlinear_arith);
            lemma_bars_are_beats(loops * b, f);
        }
        let master: Frame = loops * old_master;
        self.deck.master = master;
        self.deck.anchor = self.deck.anchor + div_floor(d, old_master) * old_master;
        cx.clock.start_master(self.deck.anchor, master, master / fpb, cx.now);
    }

    pub(crate) fn commit_take(&mut self, cx: &mut Cx, i: usize, rec: &Recorder)
        requires
            i < TRACK_COUNT,
            old(self).sound(*old(cx)),
            0 <= old(self).deck.lanes@[i as int].written,
            rec.start is Some,
            rec.end is Some,
            -2 * HORIZON + 4 * LOOP_LIMIT <= rec.start->0 <= rec.end->0 <= rec.start->0 + old(self).deck.capacity,
            rec.start->0 <= 2 * HORIZON,
            0 <= rec.align <= LOOP_LIMIT,
            rec.downbeat matches Some(d) ==> -3 * HORIZON <= d <= 3 * HORIZON,
            forall|j: int|
                0 <= j < TRACK_COUNT && j != i && (#[trigger] old(self).deck.lanes@[j]).is_committed() ==> 0
                    < old(self).deck.lanes@[j].period <= old(self).deck.master,
        ensures
            final(self).steady(*final(cx), *old(cx)),
            final(self).deck.capacity == old(self).deck.capacity,
            final(self).world(*final(cx)) == old(self).world(*old(cx)).take_committed(old(cx).now, i as int, *rec),
    {
        let ghost w = self.world(*cx);
        let window: Frame = rec.end.unwrap() - rec.start.unwrap();
        let written: Frame = self.deck.lanes[i].written;
        let raw: Frame = if written < window {
            written
        } else {
            window
        };
        let mut longer: bool = false;
        let fill: TakeFill = if self.deck.master == 0 {
            self.make_master(cx, rec.downbeat, raw);
            TakeFill::first(raw, self.deck.master)
        } else {
            let fpb: Frame = self.fpb(cx);
            let loops: Frame = raw / self.deck.master;
            longer = self.deck.master % fpb == 0 && loops >= 2;
            if longer {
                proof {
                    let m = self.deck.master as int;
                    vstd::arithmetic::div_mod::lemma_fundamental_div_mod(raw as int, m);
                    assert(m < loops * m <= raw) by (nonlinear_arith)
                        requires
                            raw == m * loops + raw as int % m,
                            0 <= raw as int % m,
                            loops >= 2,
                            m >= 1,
                    ;
                }
                self.multiply(cx, rec.start.unwrap() - rec.align, loops);
            }
            TakeFill::later(raw, fpb, self.deck.master)
        };
        assert(longer == w.multiplies(raw));
        self.lay_take(cx, i, rec.stop_playback, fill);
        if longer {
            proof {
                reveal(World::take_laid);
            }
            self.lengthen(cx, i);
        }
    }

    /// A take or layer whose window saw an input gap: discard it, keep what was there before.
    pub(crate) fn reject(&mut self, cx: &mut Cx, i: usize, rec: &Recorder)
        requires
            i < TRACK_COUNT,
            old(self).sound(*old(cx)),
            rec.kind == Kind::Overdub ==> 0 <= rec.first_pos < old(self).deck.master && 0 <= rec.summed
                <= old(self).deck.master,
        ensures
            final(self).steady(*final(cx), *old(cx)),
            final(self).deck.capacity == old(self).deck.capacity,
            final(self).world(*final(cx)) == old(self).world(*old(cx)).rejected(old(cx).now, i as int, *rec),
    {
        let overdub: bool = rec.kind == Kind::Overdub;
        cx.feed.push(Event::TakeRejected { frame: cx.now, lane: i as u8, overdub });
        if overdub {
            self.discard_layer(cx, i, rec);
            let mut t = self.deck.lanes[i];
            t.state = if rec.stop_playback {
                LaneState::Stopped
            } else {
                LaneState::Playing
            };
            self.deck.lanes[i] = t;
            return;
        }
        let mut t = self.deck.lanes[i];
        t.armed = false;
        t.written = 0;
        t.length = 0;
        t.period = 0;
        // A first take leaves a blank session: finish_capture resets it.
        t.state = LaneState::Empty;
        self.deck.lanes[i] = t;
    }

    /// Commit the capture, or reject a damaged one.
    pub(crate) fn close_capture(&mut self, cx: &mut Cx, i: usize, rec: &Recorder)
        requires
            i < TRACK_COUNT,
            old(self).sound(*old(cx)),
            0 <= old(self).deck.lanes@[i as int].written,
            !old(self).deck.lanes@[i as int].auto_armed,
            rec.ok(
                old(self).deck.lanes@[i as int],
                old(self).deck.master,
                old(self).deck.capacity,
                old(cx).now,
            ),
            forall|j: int|
                0 <= j < TRACK_COUNT && j != i && (#[trigger] old(self).deck.lanes@[j]).is_committed() ==> 0
                    < old(self).deck.lanes@[j].period <= old(self).deck.master,
        ensures
            final(self).steady(*final(cx), *old(cx)),
            final(self).deck.capacity == old(self).deck.capacity,
            final(self).world(*final(cx)) == old(self).world(*old(cx)).closed(old(cx).now, i as int, *rec),
    {
        if rec.damaged {
            self.reject(cx, i, rec);
        } else if rec.kind == Kind::Overdub {
            let mut t = self.deck.lanes[i];
            t.state = if rec.stop_playback {
                LaneState::Stopped
            } else {
                LaneState::Playing
            };
            self.deck.lanes[i] = t;
        } else {
            self.commit_take(cx, i, rec);
        }
    }

    /// The capture window closed: commit (or reject a damaged one), release the recorder, and hand it
    /// on to a lane that approved a RETAKE.
    pub(crate) fn finish_capture(&mut self, cx: &mut Cx, i: usize)
        requires
            i < TRACK_COUNT,
            old(self).ready(*old(cx)),
            !old(self).deck.lanes@[i as int].auto_armed,
            !old(self).deck.lanes@[i as int].armed,
        ensures
            final(self).ready(*final(cx)),
            final(cx).when(*old(cx)),
            final(self).deck.capacity == old(self).deck.capacity,
            final(self).world(*final(cx)) == old(self).world(*old(cx)).finished(
                old(cx).now,
                old(cx).align,
                i as int,
            ),
    {
        reveal(World::finished);
        let rec = match self.deck.rec {
            Some(r) => r,
            None => {
                return;
            },
        };
        if rec.lane != i {
            return;
        }
        proof {
            let w = self.world(*cx);
            w.lemma_rec(cx.now);
            w.lemma_lane(cx.now, i as int);
            assert forall|j: int|
                0 <= j < TRACK_COUNT && j != i && (#[trigger] self.deck.lanes@[j]).is_committed() implies 0
                < self.deck.lanes@[j].period <= self.deck.master by {
                w.lemma_lane(cx.now, j);
            }
        }
        let ghost w0 = self.world(*cx);
        self.close_capture(cx, i, &rec);
        self.release_recorder(cx, i);
        proof {
            w0.lemma_closed(cx.now, i as int);
        }
        let ghost w1 = self.world(*cx);
        self.reset_master_if_blank(cx);
        proof {
            w1.lemma_reset_if_blank(cx.now);
            self.world(*cx).lemma_lane(cx.now, i as int);
            if let Some(n) = rec.handoff {
                assert(w1.deck.lanes@[n as int].state == LaneState::Empty);
            }
        }
        match (rec.handoff, rec.end) {
            (Some(next), Some(seam)) => {
                if self.deck.lanes[i].state == LaneState::Playing {
                    self.start_recording(cx, next, Some(seam));
                }
            },
            _ => {},
        }
    }

    /// RETAKE: the rolling take reached its window end. Set the pass aside when it is clean (a damaged
    /// pass drops the older kept pass too: approving must never hand back a pass the player did not just
    /// play) and slide the whole take one pass forward.
    pub(crate) fn complete_pass(&mut self, cx: &mut Cx)
        requires
            old(self).ready(*old(cx)),
            old(self).deck.rec is Some,
            old(self).deck.rec->0.roll is Some,
            !old(self).deck.lanes@[old(self).deck.rec->0.lane as int].armed,
            !old(self).deck.lanes@[old(self).deck.rec->0.lane as int].auto_armed,
            old(self).deck.rec->0.end is Some,
            old(self).deck.rec->0.end->0 <= old(cx).now,
        ensures
            final(self).ready(*final(cx)),
            final(cx).when(*old(cx)),
            final(self).deck.capacity == old(self).deck.capacity,
            final(self).world(*final(cx)) == old(self).world(*old(cx)).pass_completed(old(cx).now),
    {
        reveal(World::pass_completed);
        proof {
            self.world(*cx).lemma_rec(cx.now);
            self.world(*cx).lemma_pass_completed(cx.now);
        }
        let mut rec = self.deck.rec.unwrap();
        let i: usize = rec.lane;
        let (start, end): (Frame, Frame) = (rec.start.unwrap(), rec.end.unwrap());
        let frames: Frame = end - start;
        let mut roll = rec.roll.unwrap();
        let clean: bool = !rec.damaged;
        if clean {
            self.swap_live(cx, i);
        } else {
            cx.feed.push(Event::PassDropped { frame: cx.now, lane: i as u8, pass: roll.pass });
        }
        roll.kept = clean;
        roll.pass = roll.pass.wrapping_add(1);
        rec.roll = Some(roll);
        rec.damaged = false;
        rec.start = Some(end);
        rec.end = Some(end + frames);
        rec.downbeat = match rec.downbeat {
            Some(d) => Some(d + frames),
            None => None,
        };
        self.slide_pass(cx, i, rec);
    }

    /// Swap a lane's live buffer with the free one.
    pub(crate) fn swap_live(&mut self, cx: &Cx, i: usize)
        requires
            i < TRACK_COUNT,
        ensures
            final(self).detector == old(self).detector,
            final(self).world(*cx) == old(self).world(*cx).live_swapped(i as int),
    {
        let mut t = self.deck.lanes[i];
        let live: usize = t.live;
        t.live = self.deck.free;
        self.deck.lanes[i] = t;
        self.deck.free = live;
    }

    pub(crate) fn slide_pass(&mut self, cx: &Cx, i: usize, rec: Recorder)
        requires
            i < TRACK_COUNT,
        ensures
            final(self).detector == old(self).detector,
            final(self).world(*cx) == old(self).world(*cx).pass_slid(i as int, rec),
    {
        let mut t = self.deck.lanes[i];
        t.audible = t.logical();
        t.written = 0;
        self.deck.lanes[i] = t;
        self.deck.rec = Some(rec);
    }

    /// AUTO: the onset retained in the live buffer began at input frame `onset`. The grid anchors where
    /// it was performed: `align` frames earlier.
    pub fn begin_auto(&mut self, cx: &mut Cx, onset: Frame)
        requires
            old(self).ready(*old(cx)),
            old(self).deck.rec is Some,
            old(self).deck.lanes@[old(self).deck.rec->0.lane as int].auto_armed,
            -HORIZON - LOOP_LIMIT <= onset <= HORIZON,
        ensures
            final(self).steady(*final(cx), *old(cx)),
            final(self).deck.capacity == old(self).deck.capacity,
            final(self).world(*final(cx)) == old(self).world(*old(cx)).auto_begun(
                old(cx).now,
                old(cx).align,
                onset,
            ),
    {
        proof {
            self.world(*cx).lemma_rec(cx.now);
        }
        let mut rec = self.deck.rec.unwrap();
        let i: usize = rec.lane;
        let downbeat: Frame = onset - cx.align;
        rec.align = cx.align;
        rec.start = Some(onset);
        rec.downbeat = Some(downbeat);
        self.deck.rec = Some(rec);
        let mut t = self.deck.lanes[i];
        t.auto_armed = false;
        self.deck.lanes[i] = t;
        cx.clock.set_locked(true);
        self.configure_end(cx);
        cx.clock.start_auto_record(downbeat, cx.now);
    }

    pub(crate) fn start_overdub(&mut self, cx: &mut Cx, i: usize)
        requires
            i < TRACK_COUNT,
            old(self).ready(*old(cx)),
            old(self).deck.lanes@[i as int].state == LaneState::Playing,
            keeps::no_restore(old(self).jobs@),
            tasks::free_of(old(self).jobs@, i as int),
        ensures
            final(self).ready(*final(cx)),
            final(cx).when(*old(cx)),
            final(self).deck.capacity == old(self).deck.capacity,
            final(self).world(*final(cx)) == old(self).world(*old(cx)).overdubbing(
                old(cx).now,
                old(cx).align,
                i as int,
            ),
    {
        reveal(World::overdubbing);
        if self.deck.rec.is_some() || self.deck.lanes[i].reversed || self.deck.master == 0 {
            return;
        }
        let master: Frame = self.deck.master;
        let first_pos: Frame = loop_pos(cx.now, self.deck.anchor, master);
        let mut rec = Recorder::new(i, Kind::Overdub, cx.align);
        let mut t = self.deck.lanes[i];
        rec.prev_undo_valid = t.undo_valid;
        rec.prev_spare_reversed = t.spare_reversed;
        t.audible = t.logical();
        t.switch_at = None;
        // The previous undo target waits in the free buffer until the layer commits or is discarded;
        // the spare becomes a copy of the loop as it is now, filled ahead of the layer's first write.
        let spare: usize = t.spare;
        t.spare = self.deck.free;
        t.undo_valid = true;
        t.spare_reversed = t.reversed;
        t.state = LaneState::Overdubbing;
        let (src, dst): (usize, usize) = (t.live, t.spare);
        self.deck.lanes[i] = t;
        self.deck.free = spare;
        rec.start = Some(cx.now + rec.align);
        rec.first_pos = first_pos;
        self.deck.rec = Some(rec);
        self.push_job(cx.now, i, JobKind::Copy { src, dst }, Visit { lo: 0, span: master, off: first_pos, modulus: master });
        proof {
            old(self).world(*old(cx)).lemma_overdubbing(cx.now, cx.align, i as int);
        }
    }

    /// Where a stop gesture ends a capture: a take on whole bars from musical time, with the
    /// quarter-beat grace. A first take shorter than a bar keeps its audio through the press and pads to
    /// one bar at the commit.
    pub(crate) fn stop_target(&self, cx: &Cx, t: &Lane, rec: &Recorder) -> (end: Frame)
        requires
            self.sound(*cx),
            0 <= rec.align <= LOOP_LIMIT,
            t.state == LaneState::Recording ==> rec.start is Some && -2 * HORIZON <= rec.start->0 <= 2 * HORIZON,
            rec.downbeat matches Some(d) ==> -3 * HORIZON <= d <= 3 * HORIZON,
        ensures
            end == self.world(*cx).stop_target(cx.now, *t, *rec),
    {
        let press: Frame = cx.now + rec.align;
        if t.state != LaneState::Recording {
            return press;
        }
        let fpb: Frame = self.fpb(cx);
        let start: Frame = rec.start.unwrap();
        if self.deck.master == 0 {
            let elapsed: Frame = match rec.downbeat {
                Some(d) => cx.now - d,
                None => 0,
            };
            proof {
                let bars = grid::graced_bars(elapsed as int, fpb as int);
                if bars >= 1 {
                    grid::lemma_whole_bars_fit(
                        grid::clamped_bars(bars, grid::whole_bars(self.deck.capacity as int, fpb as int)),
                        self.deck.capacity as int,
                        fpb as int,
                        self.deck.capacity as int,
                    );
                }
            }
            match plan_free_stop(elapsed, fpb, self.deck.capacity) {
                Some(target) => start + target,
                None => press,
            }
        } else if self.deck.master % fpb == 0 {
            let bars: Frame = self.deck.master / fpb;
            proof {
                keeps::lemma_later_bars_fit(
                    grid::graced_bars(cx.now - (start - rec.align), fpb as int),
                    fpb as int,
                    self.deck.master as int,
                    self.deck.capacity,
                );
            }
            start + plan_later_stop(cx.now, start, rec.align, fpb, bars, max_take_bars(self.deck.capacity, fpb))
        } else {
            press
        }
    }

    /// Put the kept pass in place of the one in flight, whose damage dies with it.
    pub(crate) fn approve_pass(&mut self, cx: &Cx, i: usize, rec: &Recorder)
        requires
            i < TRACK_COUNT,
            rec.start is Some,
            rec.end is Some,
            grid::fits(rec.end->0 - rec.start->0),
        ensures
            final(self).detector == old(self).detector,
            final(self).world(*cx) == old(self).world(*cx).pass_approved(i as int, *rec),
    {
        let mut t = self.deck.lanes[i];
        let live: usize = t.live;
        t.live = self.deck.free;
        t.audible = t.logical();
        t.written = rec.end.unwrap() - rec.start.unwrap();
        self.deck.lanes[i] = t;
        self.deck.free = live;
        let mut kept = *rec;
        kept.damaged = false;
        self.deck.rec = Some(kept);
    }

    /// End the recorder's window at `end`, or where it ended already.
    pub(crate) fn cut_window(&mut self, cx: &Cx, rec: &Recorder, end: Frame) -> (at: Frame)
        ensures
            final(self).detector == old(self).detector,
            final(self).world(*cx) == old(self).world(*cx).window_cut(*rec, end),
            final(self).deck.rec->0.end == Some(at),
    {
        let at: Frame = match rec.end {
            Some(e) => if e < end {
                e
            } else {
                end
            },
            None => end,
        };
        let mut cut = *rec;
        cut.end = Some(at);
        self.deck.rec = Some(cut);
        at
    }

    /// A stop gesture on a capture: tighten the window end once (a repeated gesture cannot extend it).
    pub(crate) fn stop_capture(&mut self, cx: &mut Cx, i: usize)
        requires
            i < TRACK_COUNT,
            old(self).ready(*old(cx)),
        ensures
            final(self).ready(*final(cx)),
            final(cx).when(*old(cx)),
            final(self).deck.capacity == old(self).deck.capacity,
            final(self).world(*final(cx)) == old(self).world(*old(cx)).capture_stopped(
                old(cx).now,
                old(cx).align,
                i as int,
            ),
    {
        reveal(World::capture_stopped);
        let t = self.deck.lanes[i];
        if t.auto_armed || t.armed {
            // Nothing retained yet: cancel the count-in, the boundary arm or AUTO.
            self.stop(cx, i);
            return;
        }
        let mut rec = match self.deck.rec {
            Some(r) => r,
            None => {
                return;
            },
        };
        if rec.lane != i {
            return;
        }
        let ghost w = self.world(*cx);
        proof {
            w.lemma_rec(cx.now);
            w.lemma_lane(cx.now, i as int);
            w.lemma_stop_target(cx.now, i as int);
        }
        let plan: RetakeStop = if rec.roll.is_some() {
            self.retake_plan(cx, &rec)
        } else {
            RetakeStop::StopNow
        };
        rec.roll = None;
        if plan == RetakeStop::KeepLast {
            proof {
                w.lemma_pass_approved(cx.now, i as int);
            }
            self.approve_pass(cx, i, &rec);
            self.finish_capture(cx, i);
            return;
        }
        let end: Frame = if plan == RetakeStop::FinishPass {
            // It ends on its own pass edge.
            rec.end.unwrap()
        } else {
            self.stop_target(cx, &t, &rec)
        };
        proof {
            if plan == RetakeStop::FinishPass {
                w.lemma_rec_changed(rec, cx.now);
            }
        }
        let at: Frame = self.cut_window(cx, &rec, end);
        if at <= cx.now {
            self.finish_capture(cx, i);
        }
    }

    /// The device stopped: what records ends after the last rendered frame and commits as usual (a
    /// RETAKE roll with a kept pass commits that pass), what has retained nothing is cancelled.
    pub fn punch_out(&mut self, cx: &mut Cx)
        requires
            old(self).ready(*old(cx)),
            old(cx).align == 0,
        ensures
            final(self).ready(*final(cx)),
            final(cx).when(*old(cx)),
            final(self).deck.capacity == old(self).deck.capacity,
            final(self).world(*final(cx)) == old(self).world(*old(cx)).punched_out(old(cx).now),
    {
        reveal(World::punched_out);
        let mut rec = match self.deck.rec {
            Some(r) => r,
            None => {
                return;
            },
        };
        let i: usize = rec.lane;
        proof {
            let w = self.world(*cx);
            w.lemma_rec(cx.now);
            w.lemma_lane(cx.now, i as int);
        }
        rec.handoff = None;
        proof {
            self.world(*cx).lemma_rec_changed(rec, cx.now);
        }
        self.deck.rec = Some(rec);
        let t = self.deck.lanes[i];
        let kept: bool = match rec.roll {
            Some(r) => r.kept,
            None => false,
        };
        let retains: bool = if rec.kind == Kind::Take {
            t.written > 0
        } else {
            rec.summed > 0
        };
        if t.armed || t.auto_armed {
            self.stop(cx, i);
        } else if kept {
            self.end_on_kept(cx, i, rec);
        } else if retains {
            self.end_now(cx, i, rec);
        } else if rec.kind == Kind::Take {
            self.stop(cx, i);
        } else {
            self.drop_layer(cx, i, &rec);
        }
    }

    fn end_on_kept(&mut self, cx: &mut Cx, i: usize, rec: Recorder)
        requires
            i < TRACK_COUNT,
            old(self).ready(*old(cx)),
            old(self).deck.rec == Some(rec),
            rec.lane == i,
            rec.roll is Some,
            !old(self).deck.lanes@[i as int].armed,
            !old(self).deck.lanes@[i as int].auto_armed,
        ensures
            final(self).ready(*final(cx)),
            final(cx).when(*old(cx)),
            final(self).deck.capacity == old(self).deck.capacity,
            final(self).world(*final(cx)) == old(self).world(*old(cx)).pass_approved(
                i as int,
                Recorder { roll: None, ..rec },
            ).finished(old(cx).now, old(cx).align, i as int),
    {
        proof {
            let w = self.world(*cx);
            w.lemma_rec(cx.now);
            w.lemma_pass_approved(cx.now, i as int);
        }
        let ended = Recorder { roll: None, ..rec };
        self.approve_pass(cx, i, &ended);
        self.finish_capture(cx, i);
    }

    fn end_now(&mut self, cx: &mut Cx, i: usize, rec: Recorder)
        requires
            i < TRACK_COUNT,
            old(self).ready(*old(cx)),
            old(self).deck.rec == Some(rec),
            rec.lane == i,
            !old(self).deck.lanes@[i as int].armed,
            !old(self).deck.lanes@[i as int].auto_armed,
        ensures
            final(self).ready(*final(cx)),
            final(cx).when(*old(cx)),
            final(self).deck.capacity == old(self).deck.capacity,
            final(self).world(*final(cx)) == old(self).world(*old(cx)).window_cut(
                Recorder { roll: None, ..rec },
                old(cx).now,
            ).finished(old(cx).now, old(cx).align, i as int),
    {
        proof {
            self.world(*cx).lemma_cut_now(cx.now);
        }
        let ended = Recorder { roll: None, ..rec };
        let _ = self.cut_window(cx, &ended, cx.now);
        self.finish_capture(cx, i);
    }

    #[verifier::rlimit(60)]
    fn drop_layer(&mut self, cx: &mut Cx, i: usize, rec: &Recorder)
        requires
            i < TRACK_COUNT,
            old(self).ready(*old(cx)),
            old(self).deck.rec == Some(*rec),
            rec.lane == i,
            rec.kind == Kind::Overdub,
        ensures
            final(self).ready(*final(cx)),
            final(cx).when(*old(cx)),
            final(self).deck.capacity == old(self).deck.capacity,
            final(self).world(*final(cx)) == old(self).world(*old(cx)).layer_dropped(old(cx).now, i as int, *rec),
    {
        proof {
            let w = self.world(*cx);
            w.lemma_rec(cx.now);
            w.lemma_lane(cx.now, i as int);
        }
        self.discard_layer(cx, i, rec);
        let ghost w1 = self.world(*cx);
        let mut t = self.deck.lanes[i];
        t.state = if rec.stop_playback {
            LaneState::Stopped
        } else {
            LaneState::Playing
        };
        self.deck.lanes[i] = t;
        assert(self.world(*cx) == w1.with_lane(i as int, t));
        self.release_recorder(cx, i);
        assert(self.world(*cx) == old(self).world(*old(cx)).layer_dropped(old(cx).now, i as int, *rec));
        proof {
            old(self).world(*old(cx)).lemma_layer_dropped(cx.now, i as int);
        }
    }
}

/// Whole bars have four beats each and a bar at least four frames.
proof fn lemma_bars_are_beats(bars: int, fpb: int)
    requires
        bars >= 1,
        fpb >= 4,
    ensures
        4 * bars <= bars * fpb,
        4 <= bars * fpb,
{
    assert(4 * bars <= bars * fpb) by (nonlinear_arith)
        requires
            bars >= 1,
            fpb >= 4,
    ;
}

} // verus!
