//! That nothing scheduled is ever overdue: once what is due on a frame was done, everything scheduled lies
//! after it, and no command leaves a recorder whose window it would take more than that frame to close.

use vstd::prelude::*;

use crate::api::{Action, Command, LaneState, TRACK_COUNT};
use crate::autorec;
use crate::deck;
use crate::deck::{Deck, Job, JobKind, Kind, Lane, Recorder, World, JOB_RATE};
use crate::grid;
use crate::grid::{Frame, RetakeStop};
use crate::keeps;

verus! {

/// A lane waits for no frame up to now.
pub open spec fn calm_lane(t: Lane, now: Frame) -> bool {
    &&& (t.stop_at matches Some(f) ==> now < f)
    &&& (t.switch_at matches Some(f) ==> now < f)
}

/// No job is done by now.
#[verifier::opaque]
pub open spec fn jobs_past(jobs: Seq<Option<Job>>, now: Frame) -> bool {
    forall|k: int| 0 <= k < jobs.len() && (#[trigger] jobs[k]) is Some ==> now < jobs[k]->0.done_at()
}

/// Every lane waits for what it waited for, or for nothing.
pub open spec fn quieter(a: World, b: World) -> bool {
    forall|k: int|
        0 <= k < TRACK_COUNT ==> {
            &&& (#[trigger] b.deck.lanes@[k]).stop_at is None || b.deck.lanes@[k].stop_at == a.deck.lanes@[k].stop_at
            &&& b.deck.lanes@[k].switch_at is None || b.deck.lanes@[k].switch_at == a.deck.lanes@[k].switch_at
        }
}

impl World {
    /// No lane waits for a frame up to now.
    pub open spec fn lanes_past(self, now: Frame) -> bool {
        forall|k: int| 0 <= k < TRACK_COUNT ==> calm_lane(#[trigger] self.deck.lanes@[k], now)
    }

    /// No edge of the recorder's window lies up to now.
    pub open spec fn edges_past(self, now: Frame) -> bool {
        self.deck.rec matches Some(r) ==> {
            &&& (r.end matches Some(e) ==> now < e)
            &&& (r.start matches Some(s) ==> self.lane(r.lane as int).armed ==> now < s)
        }
    }

    /// Nothing is scheduled up to now.
    pub open spec fn all_past(self, now: Frame) -> bool {
        self.lanes_past(now) && jobs_past(self.jobs, now) && self.edges_past(now)
    }

    /// A window that ended before now is the last one of its recorder.
    pub open spec fn timely(self, now: Frame) -> bool {
        self.deck.rec matches Some(r) ==> (r.end matches Some(e) ==> e < now ==> r.roll is None && r.handoff is None)
    }

    /// ... and only one that was not open yet did.
    pub open spec fn on_time(self, now: Frame) -> bool {
        &&& self.timely(now)
        &&& (self.deck.rec matches Some(r) ==> (r.end matches Some(e) ==> !self.lane(r.lane as int).armed ==> now < e))
    }

    /// How many windows of the recorder may end on this frame yet, and more than two where it is not timely.
    pub open spec fn edges_left(self, now: Frame) -> int {
        if self.edges_past(now) {
            0
        } else {
            let r = self.deck.rec->0;
            if r.end is None || r.end->0 > now || r.roll is None && r.handoff is None || r.roll is Some && r.end->0 == now {
                1
            } else if r.end->0 == now {
                2
            } else {
                9
            }
        }
    }

    pub proof fn lemma_all_past(self, now: Frame)
        requires
            self.all_past(now),
        ensures
            forall|g: Frame| #[trigger] self.scheduled(g) ==> now < g,
    {
        reveal(jobs_past);
        assert forall|g: Frame| #[trigger] self.scheduled(g) implies now < g by {
            if exists|k: int| 0 <= k < TRACK_COUNT && (#[trigger] self.deck.lanes@[k]).expects(g) {
                let k = choose|k: int| 0 <= k < TRACK_COUNT && (#[trigger] self.deck.lanes@[k]).expects(g);
                assert(calm_lane(self.deck.lanes@[k], now));
            } else if !self.edge_at(g) {
                let k = choose|k: int| 0 <= k < self.jobs.len() && deck::done_on(#[trigger] self.jobs[k], g);
                assert(self.jobs[k] is Some);
            }
        }
    }

    /// Nothing overdue, then nothing is late.
    pub proof fn lemma_timely(self, now: Frame)
        requires
            forall|g: Frame| #[trigger] self.scheduled(g) ==> now <= g,
        ensures
            self.timely(now),
    {
        if self.deck.rec is Some && self.deck.rec->0.end is Some {
            assert(self.edge_at(self.deck.rec->0.end->0));
            assert(self.scheduled(self.deck.rec->0.end->0));
        }
    }

    pub proof fn lemma_on_time(self, now: Frame)
        requires
            forall|g: Frame| #[trigger] self.scheduled(g) ==> now < g,
        ensures
            self.on_time(now),
    {
        if self.deck.rec is Some && self.deck.rec->0.end is Some {
            assert(self.edge_at(self.deck.rec->0.end->0));
            assert(self.scheduled(self.deck.rec->0.end->0));
        }
    }

    pub proof fn lemma_quieter(self, after: World, now: Frame)
        requires
            self.lanes_past(now),
            quieter(self, after),
        ensures
            after.lanes_past(now),
    {
        assert forall|k: int| 0 <= k < TRACK_COUNT implies calm_lane(#[trigger] after.deck.lanes@[k], now) by {
            assert(calm_lane(self.deck.lanes@[k], now));
        }
    }
}

/// A job that starts now is done later.
proof fn lemma_job_later(now: Frame, span: int)
    requires
        span >= 1,
    ensures
        now < now + deck::frames_of_job(span),
{
    assert((span + JOB_RATE - 1) / (JOB_RATE as int) >= 1) by (nonlinear_arith)
        requires
            span >= 1,
    ;
}

proof fn lemma_more_past(jobs: Seq<Option<Job>>, job: Job, now: Frame)
    requires
        job.start == now,
        job.visit.span >= 1,
    ensures
        jobs_past(jobs, now) ==> jobs_past(deck::with_job(jobs, job), now),
{
    reveal(jobs_past);
    lemma_job_later(now, job.visit.span as int);
    keeps::lemma_first_free(jobs);
    let more = deck::with_job(jobs, job);
    if jobs_past(jobs, now) {
        assert forall|k: int| 0 <= k < more.len() && (#[trigger] more[k]) is Some implies now < more[k]->0.done_at() by {
            if k != deck::first_free(jobs) {
                assert(more[k] == jobs[k]);
            }
        }
    }
}

// ── What a stop and a job's end leave ──────────────────────────────────────────────────────────────

impl World {
    proof fn lemma_discarded_calm(self, now: Frame, i: int, rec: Recorder)
        requires
            0 <= i < TRACK_COUNT,
            rec.summed >= 0,
            self.deck.master >= 0,
        ensures
            ({
                let after = self.layer_discarded(now, i, rec);
                &&& after.deck.rec == self.deck.rec
                &&& after.deck.master == self.deck.master
                &&& jobs_past(self.jobs, now) ==> jobs_past(after.jobs, now)
                &&& forall|k: int|
                    0 <= k < TRACK_COUNT && k != i ==> #[trigger] after.deck.lanes@[k] == self.deck.lanes@[k]
                &&& after.lane(i).stop_at == self.lane(i).stop_at
                &&& after.lane(i).switch_at == self.lane(i).switch_at
                &&& after.lane(i).armed == self.lane(i).armed
                &&& after.lane(i).state == self.lane(i).state
            }),
    {
        reveal(World::layer_discarded);
        let fewer = deck::without_lane(self.jobs, i);
        if jobs_past(self.jobs, now) {
            assert(jobs_past(fewer, now)) by {
                reveal(jobs_past);
                assert forall|k: int| 0 <= k < fewer.len() && (#[trigger] fewer[k]) is Some implies now
                    < fewer[k]->0.done_at() by {
                    assert(fewer[k] == self.jobs[k]);
                }
            }
        }
        let span = grid::min_int(rec.summed as int, self.deck.master as int);
        if span != 0 {
            let after = self.layer_discarded(now, i, rec);
            keeps::lemma_first_free(fewer);
            let job = after.jobs[deck::first_free(fewer)]->0;
            assert(after.jobs == deck::with_job(fewer, job));
            lemma_more_past(fewer, job, now);
        }
    }

    /// A stop leaves the recorder or releases it, and no lane waits for more.
    pub proof fn lemma_stopped_calm(self, now: Frame, i: int)
        requires
            self.inv(now),
            0 <= i < TRACK_COUNT,
        ensures
            ({
                let after = self.stopped(now, i);
                &&& after.deck.rec is None || after.deck.rec == self.deck.rec && self.deck.rec->0.lane != i
                &&& forall|k: int|
                    0 <= k < TRACK_COUNT && k != i ==> #[trigger] after.deck.lanes@[k] == self.deck.lanes@[k]
                &&& after.lane(i).stop_at is None
                &&& after.lane(i).switch_at is None
            }),
    {
        reveal(World::stopped);
        self.lemma_lane(now, i);
        if self.deck.rec is Some {
            self.lemma_rec(now);
        }
        let w = self.with_lane(i, Lane { stop_at: None, ..self.lane(i) });
        let v = w.with_lane(i, Lane { armed: false, ..w.lane(i) });
        if self.lane(i).state == LaneState::Overdubbing {
            v.lemma_discarded_calm(now, i, self.deck.rec->0);
        }
    }

    pub proof fn lemma_lane_due_calm(self, now: Frame, k: int)
        requires
            self.inv(now),
            0 <= k < TRACK_COUNT,
        ensures
            ({
                let after = self.lane_due(now, k);
                &&& after.deck.rec is None || after.deck.rec == self.deck.rec
                &&& forall|j: int|
                    0 <= j < TRACK_COUNT && j != k ==> #[trigger] after.deck.lanes@[j] == self.deck.lanes@[j]
                &&& calm_lane(after.lane(k), now)
            }),
    {
        reveal(World::lane_due);
        let t = self.lane(k);
        let swaps = t.switch_at is Some && t.switch_at->0 <= now;
        let w = if swaps {
            self.swapped(k)
        } else {
            self
        };
        if swaps {
            self.lemma_swapped(now, k);
        }
        w.lemma_stopped_calm(now, k);
    }

    /// A job's end moves no recorder, and no lane waits for more.
    pub proof fn lemma_job_due_calm(self, now: Frame, k: int)
        requires
            0 <= k < self.jobs.len(),
            self.jobs[k] is Some,
            self.jobs[k]->0.lane < TRACK_COUNT,
            self.jobs[k]->0.kind matches JobKind::LaneCopy { to, .. } ==> to < TRACK_COUNT,
        ensures
            self.job_due(now, k).deck.rec == self.deck.rec,
            quieter(self, self.job_due(now, k)),
    {
        reveal(World::job_due);
        let job = self.jobs[k]->0;
        self.lemma_job_brought_calm(now, job);
        let w = self.job_brought(now, job);
        (World { jobs: w.jobs.update(k, None), ..w }).lemma_caught_up_same(now, job.lane as int);
    }

    proof fn lemma_job_brought_calm(self, now: Frame, job: Job)
        requires
            job.lane < TRACK_COUNT,
            job.kind matches JobKind::LaneCopy { to, .. } ==> to < TRACK_COUNT,
        ensures
            self.job_brought(now, job).deck.rec == self.deck.rec,
            quieter(self, self.job_brought(now, job)),
    {
        reveal(World::job_brought);
        if let JobKind::LaneCopy { from, to, .. } = job.kind {
            let w = self.say(crate::api::Event::Copied { frame: now, from: from as u8, to: to as u8 });
            w.lemma_resumed_calm(now, to as int, true);
        }
    }

    proof fn lemma_resumed_calm(self, now: Frame, i: int, decide: bool)
        requires
            0 <= i < TRACK_COUNT,
        ensures
            self.resumed(now, i, decide).deck.rec == self.deck.rec,
            quieter(self, self.resumed(now, i, decide)),
            forall|k: int|
                0 <= k < TRACK_COUNT ==> (#[trigger] self.resumed(now, i, decide).deck.lanes@[k]).armed
                    == self.deck.lanes@[k].armed,
    {
        reveal(World::resumed);
        reveal(World::restarted_if_idle);
    }
}

// ── What a commit leaves ───────────────────────────────────────────────────────────────────────────

impl World {
    proof fn lemma_repeated_calm(self, now: Frame, k: int, buf: usize)
        requires
            0 < self.lane(k).period < self.lane(k).length,
        ensures
            self.repeated(now, k, buf).deck == self.deck,
            jobs_past(self.jobs, now) ==> jobs_past(self.repeated(now, k, buf).jobs, now),
    {
        let after = self.repeated(now, k, buf);
        keeps::lemma_first_free(self.jobs);
        let job = after.jobs[deck::first_free(self.jobs)]->0;
        assert(after.jobs == deck::with_job(self.jobs, job));
        lemma_more_past(self.jobs, job, now);
    }

    pub proof fn lemma_lengthened_calm(self, now: Frame, k: int, i: int)
        requires
            0 <= k <= TRACK_COUNT,
            forall|j: int|
                k <= j < TRACK_COUNT && j != i && (#[trigger] self.deck.lanes@[j]).is_committed() ==> 0
                    < self.deck.lanes@[j].period,
        ensures
            ({
                let after = self.lengthened(now, k, i);
                &&& after.deck == (Deck { lanes: after.deck.lanes, ..self.deck })
                &&& quieter(self, after)
                &&& jobs_past(self.jobs, now) ==> jobs_past(after.jobs, now)
                &&& forall|j: int|
                    0 <= j < TRACK_COUNT ==> (#[trigger] after.deck.lanes@[j]).state == self.deck.lanes@[j].state
            }),
        decreases TRACK_COUNT - k,
    {
        if k < TRACK_COUNT {
            let t = self.lane(k);
            if k != i && t.is_committed() {
                reveal(World::caught_up);
                let u = self.with_lane(k, Lane { length: self.deck.master, ..t });
                let w = u.caught_up(now, k);
                if t.period < self.deck.master && !deck::busy(u.jobs, k) {
                    let v = if t.undo_valid {
                        u.repeated(now, k, t.spare)
                    } else {
                        u
                    };
                    if t.undo_valid {
                        u.lemma_repeated_calm(now, k, t.spare);
                    }
                    v.lemma_repeated_calm(now, k, t.live);
                }
                assert(w.deck == u.deck);
                assert forall|j: int| 0 <= j < TRACK_COUNT && j != k implies #[trigger] w.deck.lanes@[j]
                    == self.deck.lanes@[j] by {
                }
                w.lemma_lengthened_calm(now, k + 1, i);
            } else {
                self.lemma_lengthened_calm(now, k + 1, i);
            }
        }
    }

    pub proof fn lemma_laid_calm(self, now: Frame, i: int, stop: bool, fill: grid::TakeFill)
        requires
            0 <= i < TRACK_COUNT,
            fill.wf(),
            self.deck.master > 0,
        ensures
            ({
                let after = self.take_laid(now, i, stop, fill);
                &&& after.deck == (Deck { lanes: after.deck.lanes, ..self.deck })
                &&& quieter(self, after)
                &&& jobs_past(self.jobs, now) ==> jobs_past(after.jobs, now)
                &&& forall|k: int|
                    0 <= k < TRACK_COUNT && k != i ==> #[trigger] after.deck.lanes@[k] == self.deck.lanes@[k]
            }),
    {
        reveal(World::take_laid);
        if fill.kept() < self.deck.master {
            let after = self.take_laid(now, i, stop, fill);
            keeps::lemma_first_free(self.jobs);
            let job = after.jobs[deck::first_free(self.jobs)]->0;
            assert(after.jobs == deck::with_job(self.jobs, job));
            lemma_more_past(self.jobs, job, now);
        }
    }

    /// A commit leaves a master as long as before at least, the first one a bar at least.
    proof fn lemma_committed_calm(self, now: Frame, i: int)
        requires
            self.inv(now),
            0 <= i < TRACK_COUNT,
            self.deck.rec is Some,
            self.deck.rec->0.lane == i,
            self.deck.rec->0.kind == Kind::Take,
            !self.lane(i).auto_armed,
        ensures
            ({
                let after = self.take_committed(now, i, self.deck.rec->0);
                &&& after.deck.rec == self.deck.rec
                &&& after.deck.retake == self.deck.retake
                &&& after.deck.fixed_length == self.deck.fixed_length
                &&& quieter(self, after)
                &&& jobs_past(self.jobs, now) ==> jobs_past(after.jobs, now)
                &&& 0 < after.deck.master <= self.deck.capacity
                &&& self.deck.master <= after.deck.master
                &&& self.deck.master == 0 ==> self.fpb() <= after.deck.master
            }),
    {
        let rec = self.deck.rec->0;
        self.lemma_lane(now, i);
        self.lemma_rec(now);
        let raw = grid::min_int(self.lane(i).written as int, rec.end->0 - rec.start->0) as Frame;
        let fpb = self.fpb();
        grid::lemma_bar_bounds(self.clock.bpm as int, self.deck.sample_rate as int);
        if self.deck.master == 0 {
            self.lemma_master_made(now, rec.downbeat, raw);
            let w = self.master_made(now, rec.downbeat, raw);
            w.lemma_laid_calm(now, i, rec.stop_playback, grid::TakeFill::first_fill(raw, w.deck.master));
            assert(fpb <= w.deck.master) by {
                reveal(World::master_made);
                let bars = grid::commit_bars(raw as int, fpb, self.deck.capacity as int);
                grid::lemma_whole_bars_fit(bars, self.deck.capacity as int, fpb, self.deck.capacity as int);
            }
        } else if self.multiplies(raw) {
            let downbeat = rec.start->0 - rec.align;
            self.lemma_multiplied(now, downbeat, raw);
            let w = self.multiplied(now, downbeat, self.loops_of(raw));
            keeps::lemma_later_fill_wf(raw, fpb as Frame, w.deck.master);
            let fill = grid::TakeFill::later_fill(raw, fpb as Frame, w.deck.master);
            w.lemma_laid_calm(now, i, rec.stop_playback, fill);
            let laid = w.take_laid(now, i, rec.stop_playback, fill);
            assert forall|j: int|
                0 <= j < TRACK_COUNT && j != i && (#[trigger] laid.deck.lanes@[j]).is_committed() implies 0
                < laid.deck.lanes@[j].period by {
                self.lemma_lane(now, j);
            }
            laid.lemma_lengthened_calm(now, 0, i);
        } else {
            keeps::lemma_later_fill_wf(raw, fpb as Frame, self.deck.master);
            self.lemma_laid_calm(
                now,
                i,
                rec.stop_playback,
                grid::TakeFill::later_fill(raw, fpb as Frame, self.deck.master),
            );
        }
    }

    /// What a finished capture leaves: no recorder, or one that was handed on, armed for where the window
    /// ended; rolling, for one master from there.
    #[verifier::rlimit(40)]
    pub proof fn lemma_finished_calm(self, now: Frame, align: Frame, i: int)
        requires
            self.inv(now),
            0 <= i < TRACK_COUNT,
            self.deck.rec is Some,
            self.deck.rec->0.lane == i,
            !self.lane(i).auto_armed,
            !self.lane(i).armed,
        ensures
            ({
                let q = self.deck.rec->0;
                let after = self.finished(now, align, i);
                &&& quieter(self, after)
                &&& jobs_past(self.jobs, now) ==> jobs_past(after.jobs, now)
                &&& (after.deck.rec matches Some(r) ==> {
                    &&& q.handoff is Some
                    &&& r.lane < TRACK_COUNT
                    &&& after.lane(r.lane as int).armed
                    &&& r.start == q.end
                    &&& r.handoff is None
                    &&& r.roll is Some ==> {
                        &&& r.end == Some((q.end->0 + after.deck.master) as Frame)
                        &&& q.end->0 + after.deck.master <= i64::MAX
                        &&& self.deck.master <= after.deck.master
                        &&& self.deck.master == 0 ==> self.fpb() <= after.deck.master
                    }
                })
            }),
    {
        reveal(World::finished);
        reveal(World::recording);
        reveal(deck::take_bound);
        let rec = self.deck.rec->0;
        self.lemma_lane(now, i);
        self.lemma_rec(now);
        let shut = self.closed(now, i, rec);
        if rec.damaged {
            if rec.kind == Kind::Overdub {
                let w = self.say(crate::api::Event::TakeRejected { frame: now, lane: i as u8, overdub: true });
                w.lemma_discarded_calm(now, i, rec);
            }
        } else if rec.kind == Kind::Take {
            self.lemma_committed_calm(now, i);
        }
        assert(quieter(self, shut));
        let w1 = shut.released(i);
        let w2 = w1.reset_if_blank(now);
        assert(quieter(self, w2));
        assert(w2.jobs == shut.jobs);
        if rec.handoff is Some && rec.end is Some && w2.lane(i).state == LaneState::Playing {
            assert(rec.kind == Kind::Take && !rec.damaged);
            assert(!w1.blank()) by {
                reveal(Deck::is_blank);
                assert(w1.deck.lanes@[i].state == LaneState::Playing);
            }
            assert(w2.deck.master == shut.deck.master);
            let n = rec.handoff->0 as int;
            let after = w2.armed_later(now, align, n, rec.end);
            assert(self.finished(now, align, i) == after);
            assert(quieter(w2, after));
        }
    }
}

// ── What a command leaves ──────────────────────────────────────────────────────────────────────────

impl World {
    /// A stop gesture ends a capture less than a master ago, a first take less than a bar.
    proof fn lemma_cut_near(self, now: Frame, i: int)
        requires
            self.inv(now),
            0 <= i < TRACK_COUNT,
            self.deck.rec is Some,
            self.deck.rec->0.lane == i,
            self.deck.rec->0.kind == Kind::Take,
            self.deck.rec->0.roll is Some || self.deck.rec->0.handoff is Some,
            !self.lane(i).armed,
            !self.lane(i).auto_armed,
            now < self.deck.rec->0.end->0,
        ensures
            ({
                let rec = Recorder { roll: None, ..self.deck.rec->0 };
                let end = grid::min_int(rec.end->0 as int, self.stop_target(now, self.lane(i), rec) as int);
                &&& self.deck.master > 0 ==> now < end + self.deck.master
                &&& self.deck.master == 0 ==> now < end + self.fpb()
            }),
    {
        let rec = Recorder { roll: None, ..self.deck.rec->0 };
        self.lemma_rec(now);
        self.lemma_lane(now, i);
        self.lemma_stop_target(now, i);
        if self.deck.master == 0 {
            let fpb = self.fpb();
            let cap = self.deck.capacity as int;
            grid::lemma_bar_bounds(self.clock.bpm as int, self.deck.sample_rate as int);
            let elapsed = now - rec.downbeat->0;
            let bars = grid::graced_bars(elapsed, fpb);
            if bars >= 1 {
                let most = grid::whole_bars(cap, fpb);
                let n = grid::clamped_bars(bars, most);
                grid::lemma_whole_bars_fit(n, cap, fpb, cap);
                vstd::arithmetic::div_mod::lemma_fundamental_div_mod(16 * elapsed + fpb, 16 * fpb);
                vstd::arithmetic::div_mod::lemma_fundamental_div_mod(cap, fpb);
                vstd::arithmetic::div_mod::lemma_mod_bound(16 * elapsed + fpb, 16 * fpb);
                vstd::arithmetic::div_mod::lemma_mod_bound(cap, fpb);
                if n == bars {
                    assert(elapsed < n * fpb + fpb) by (nonlinear_arith)
                        requires
                            n == bars,
                            16 * elapsed + fpb == (16 * fpb) * bars + (16 * elapsed + fpb) % (16 * fpb),
                            (16 * elapsed + fpb) % (16 * fpb) < 16 * fpb,
                            fpb > 0,
                    ;
                } else {
                    assert(cap < n * fpb + fpb) by (nonlinear_arith)
                        requires
                            n >= cap / fpb,
                            cap == fpb * (cap / fpb) + cap % fpb,
                            cap % fpb < fpb,
                            fpb > 0,
                    ;
                }
            }
        }
    }

    /// A stop gesture on a capture.
    pub proof fn lemma_capture_stopped_on_time(self, now: Frame, align: Frame, i: int)
        requires
            self.inv(now),
            self.on_time(now),
            0 <= i < TRACK_COUNT,
        ensures
            ({
                let after = self.capture_stopped(now, align, i);
                &&& after.on_time(now)
                &&& self.deck.rec is Some && self.deck.rec->0.lane == i ==> (after.deck.rec matches Some(r) ==> {
                    &&& r.lane < TRACK_COUNT
                    &&& r.lane == i || after.lane(r.lane as int).armed
                })
            }),
    {
        reveal(World::capture_stopped);
        let t = self.lane(i);
        if t.auto_armed || t.armed {
            self.lemma_stopped_on_time(now, i);
            self.lemma_stopped_calm(now, i);
        } else if self.deck.rec is Some && self.deck.rec->0.lane == i {
            self.lemma_rec(now);
            self.lemma_lane(now, i);
            let r0 = self.deck.rec->0;
            let plan = self.retake_plan(now, r0);
            let rec = Recorder { roll: None, ..r0 };
            if r0.roll is Some && plan == RetakeStop::KeepLast {
                self.lemma_pass_approved(now, i);
                self.pass_approved(i, rec).lemma_finished_calm(now, align, i);
            } else if r0.roll is Some && plan == RetakeStop::FinishPass {
            } else {
                self.lemma_stop_target(now, i);
                let end = self.stop_target(now, t, rec);
                let w = self.window_cut(rec, end);
                if w.deck.rec->0.end->0 <= now {
                    w.lemma_finished_calm(now, align, i);
                    if r0.handoff is Some {
                        self.lemma_cut_near(now, i);
                    }
                }
            }
        }
    }

    pub proof fn lemma_stopped_on_time(self, now: Frame, i: int)
        requires
            self.inv(now),
            self.on_time(now),
            0 <= i < TRACK_COUNT,
        ensures
            self.stopped(now, i).on_time(now),
    {
        self.lemma_stopped_calm(now, i);
        if self.deck.rec is Some {
            self.lemma_rec(now);
        }
    }

    /// A take that starts now ends later.
    proof fn lemma_recording_on_time(self, now: Frame, align: Frame, i: int)
        requires
            self.inv(now),
            self.on_time(now),
            0 <= i < TRACK_COUNT,
            0 <= align <= grid::LOOP_LIMIT,
        ensures
            self.recording(now, align, i, None).on_time(now),
    {
        reveal(World::recording);
        self.lemma_take_frames();
        self.lemma_boundary(now);
        if self.deck.master == 0 {
            let grid = grid::Grid::tempo_grid(now, 0, self.clock.bpm, self.deck.sample_rate);
            grid::lemma_count_in(grid, self.clock.bpm, self.clock.sample_rate);
        }
    }

    pub proof fn lemma_rec_dubbed_on_time(self, now: Frame, align: Frame, i: int)
        requires
            self.inv(now),
            self.on_time(now),
            0 <= i < TRACK_COUNT,
            0 <= align <= grid::LOOP_LIMIT,
        ensures
            self.rec_dubbed(now, align, i).on_time(now),
    {
        let t = self.lane(i);
        if t.state == LaneState::Empty {
            if self.rolling() {
                self.lemma_rec(now);
                let rec = self.deck.rec->0;
                self.lemma_lane(now, i);
                self.lemma_lane(now, rec.lane as int);
                let claimed = Recorder { handoff: Some(i as usize), ..rec };
                self.lemma_rec_changed(claimed, now);
                self.with_rec(Some(claimed)).lemma_capture_stopped_on_time(now, align, rec.lane as int);
            } else {
                self.lemma_recording_on_time(now, align, i);
            }
        } else if t.is_capturing() {
            self.lemma_capture_stopped_on_time(now, align, i);
        } else {
            reveal(World::overdubbing);
        }
    }

    pub proof fn lemma_play_stopped_on_time(self, now: Frame, align: Frame, i: int)
        requires
            self.inv(now),
            self.on_time(now),
            0 <= i < TRACK_COUNT,
        ensures
            ({
                let after = self.play_stopped(now, align, i);
                &&& after.on_time(now)
                &&& self.deck.rec is Some && self.deck.rec->0.lane == i ==> (after.deck.rec matches Some(r) ==> {
                    &&& r.lane < TRACK_COUNT
                    &&& r.lane == i || after.lane(r.lane as int).armed
                })
            }),
    {
        let t = self.lane(i);
        self.lemma_lane(now, i);
        self.lemma_stopped_on_time(now, i);
        self.lemma_stopped_calm(now, i);
        if self.deck.rec is Some {
            self.lemma_rec(now);
            let rec = Recorder { stop_playback: true, ..self.deck.rec->0 };
            self.lemma_rec_changed(rec, now);
            self.with_rec(Some(rec)).lemma_capture_stopped_on_time(now, align, i);
        }
        self.lemma_resumed_calm(now, i, true);
    }

    /// A stop releases the recorder or leaves it and its lane's arm.
    proof fn lemma_stopped_rec(self, now: Frame, i: int)
        requires
            0 <= i < TRACK_COUNT,
            self.deck.rec matches Some(r) ==> r.lane < TRACK_COUNT,
        ensures
            self.stopped(now, i).deck.rec is None || self.stopped(now, i).same_recorder(self),
    {
        reveal(World::stopped);
        let t = self.lane(i);
        let w1 = self.with_lane(i, Lane { stop_at: None, ..t });
        let w = w1.with_lane(i, Lane { armed: false, ..w1.lane(i) });
        if w.deck.rec is Some {
            w.lemma_discarded_rec(now, i, w.deck.rec->0);
        }
        let w2 = if t.is_capturing() {
            w1.aborted(now, i)
        } else {
            w1
        };
        assert(w2.deck.rec is None || w2.same_recorder(self));
        let w3 = w2.settled(i, t.state == LaneState::Recording);
        assert(w3.deck.rec is None || w3.same_recorder(self));
    }

    /// The recorder and its lane's arm are those of another state.
    spec fn same_recorder(self, before: World) -> bool {
        &&& self.deck.rec == before.deck.rec
        &&& self.deck.rec matches Some(r) ==> {
            &&& self.lane(r.lane as int).armed == before.lane(r.lane as int).armed
            &&& self.lane(r.lane as int).auto_armed == before.lane(r.lane as int).auto_armed
        }
    }

    proof fn lemma_discarded_rec(self, now: Frame, i: int, rec: Recorder)
        requires
            0 <= i < TRACK_COUNT,
        ensures
            self.layer_discarded(now, i, rec).deck.rec == self.deck.rec,
            forall|k: int|
                0 <= k < TRACK_COUNT && k != i ==> #[trigger] self.layer_discarded(now, i, rec).deck.lanes@[k]
                    == self.deck.lanes@[k],
    {
        reveal(World::layer_discarded);
    }

    /// One lane of the rest of STOP ALL.
    proof fn lemma_stopped_late_lane(self, now: Frame, align: Frame, k: int)
        requires
            0 <= k < TRACK_COUNT,
            self.lane(k).is_capturing(),
            self.deck.rec matches Some(r) ==> r.lane < TRACK_COUNT && (r.lane < k || self.lane(r.lane as int).armed
                || self.lane(r.lane as int).auto_armed),
        ensures
            ({
                let after = self.play_stopped(now, align, k);
                after.deck.rec is None || after.same_recorder(
                    self,
                ) || self.deck.rec is Some && after.same_recorder(
                    self.with_rec(Some(Recorder { stop_playback: true, ..self.deck.rec->0 })),
                )
            }),
    {
        reveal(World::capture_stopped);
        self.lemma_stopped_rec(now, k);
        let w = if self.deck.rec is Some {
            self.with_rec(Some(Recorder { stop_playback: true, ..self.deck.rec->0 }))
        } else {
            self
        };
        w.lemma_stopped_rec(now, k);
        assert(w.lane(k) == self.lane(k));
        let after = w.capture_stopped(now, align, k);
        assert(after == w || after == w.stopped(now, k));
    }

    /// The rest of STOP ALL, once the capture was stopped: nothing else touches the recorder.
    proof fn lemma_stopped_late(self, now: Frame, align: Frame, k: int, loop_end: Option<Frame>)
        requires
            0 <= k <= TRACK_COUNT,
            self.on_time(now),
            self.deck.rec matches Some(r) ==> r.lane < TRACK_COUNT && (r.lane < k || self.lane(r.lane as int).armed
                || self.lane(r.lane as int).auto_armed),
        ensures
            self.stopped_from(now, align, k, loop_end).on_time(now),
        decreases TRACK_COUNT - k,
    {
        if k < TRACK_COUNT {
            let t = self.lane(k);
            self.lemma_stopped_rec(now, k);
            if t.is_capturing() {
                self.lemma_stopped_late_lane(now, align, k);
            }
            let w = if t.state == LaneState::Playing {
                match loop_end {
                    Some(at) => self.with_lane(k, Lane { stop_at: Some(at), ..t }),
                    None => self.stopped(now, k),
                }
            } else if t.is_capturing() {
                self.play_stopped(now, align, k)
            } else {
                self
            };
            assert(w.on_time(now) && (w.deck.rec matches Some(r) ==> r.lane < TRACK_COUNT && (r.lane < k + 1
                || w.lane(r.lane as int).armed || w.lane(r.lane as int).auto_armed)));
            w.lemma_stopped_late(now, align, k + 1, loop_end);
        }
    }

    proof fn lemma_stopped_from_on_time(self, now: Frame, align: Frame, k: int, loop_end: Option<Frame>)
        requires
            0 <= k <= TRACK_COUNT,
            self.inv(now),
            self.on_time(now),
            loop_end matches Some(at) ==> deck::kept(at as int),
        ensures
            self.stopped_from(now, align, k, loop_end).on_time(now),
        decreases TRACK_COUNT - k,
    {
        if k < TRACK_COUNT {
            let t = self.lane(k);
            self.lemma_lane(now, k);
            if self.deck.rec is Some {
                self.lemma_rec(now);
            }
            if t.state == LaneState::Playing {
                match loop_end {
                    Some(at) => {
                        let w = self.with_lane(k, Lane { stop_at: Some(at), ..t });
                        self.lemma_stop_set(now, k, at);
                        w.lemma_stopped_from_on_time(now, align, k + 1, loop_end);
                    },
                    None => {
                        let w = self.stopped(now, k);
                        assert(w.parts_ok(now)) by {
                            reveal(World::stopped);
                        }
                        self.lemma_stopped(now, k);
                        self.lemma_stopped_on_time(now, k);
                        w.lemma_stopped_from_on_time(now, align, k + 1, loop_end);
                    },
                }
            } else if t.is_capturing() {
                self.lemma_play_stopped_on_time(now, align, k);
                self.play_stopped(now, align, k).lemma_stopped_late(now, align, k + 1, loop_end);
            } else {
                self.lemma_stopped_from_on_time(now, align, k + 1, loop_end);
            }
        }
    }

    proof fn lemma_cleared_from_on_time(self, now: Frame, k: int)
        requires
            0 <= k <= TRACK_COUNT,
            self.on_time(now),
            self.deck.rec matches Some(r) ==> r.lane < TRACK_COUNT,
        ensures
            self.cleared_from(now, k).on_time(now),
        decreases TRACK_COUNT - k,
    {
        if k < TRACK_COUNT {
            let w = self.cleared_now(now, k);
            assert(w.deck.rec is None || w.deck.rec == self.deck.rec && self.deck.rec->0.lane != k);
            w.lemma_cleared_from_on_time(now, k + 1);
        }
    }

    proof fn lemma_resumed_from_on_time(self, now: Frame, k: int, stopped: Seq<bool>)
        requires
            0 <= k <= TRACK_COUNT,
            self.on_time(now),
            self.deck.rec matches Some(r) ==> r.lane < TRACK_COUNT,
        ensures
            self.resumed_from(now, k, stopped).on_time(now),
        decreases TRACK_COUNT - k,
    {
        if k < TRACK_COUNT {
            self.lemma_resumed_calm(now, k, false);
            let w = if stopped[k] {
                self.resumed(now, k, false)
            } else {
                self
            };
            w.lemma_resumed_from_on_time(now, k + 1, stopped);
        }
    }

    pub proof fn lemma_all_played_on_time(self, now: Frame)
        requires
            self.inv(now),
            self.on_time(now),
        ensures
            self.all_played(now).on_time(now),
    {
        reveal(World::restarted_if_idle);
        if self.deck.rec is Some {
            self.lemma_rec(now);
        }
        self.restarted_if_idle(now).lemma_resumed_from_on_time(now, 0, self.stopped_lanes());
    }

    pub proof fn lemma_all_stopped_on_time(self, now: Frame, align: Frame)
        requires
            self.inv(now),
            self.on_time(now),
        ensures
            self.all_stopped(now, align).on_time(now),
    {
        self.lemma_boundary(now);
        let loop_end = if self.deck.loop_end_stop && !self.any_stopping() {
            Some(self.boundary(now))
        } else {
            None
        };
        self.lemma_stopped_from_on_time(now, align, 0, loop_end);
    }

    pub proof fn lemma_cleared_on_time(self, now: Frame, i: int)
        requires
            self.inv(now),
            self.on_time(now),
            0 <= i < TRACK_COUNT,
        ensures
            self.cleared_now(now, i).on_time(now),
            self.all_cleared(now).on_time(now),
    {
        if self.deck.rec is Some {
            self.lemma_rec(now);
        }
        self.lemma_cleared_from_on_time(now, 0);
        let w = self.cleared_now(now, i);
        assert(w.deck.rec is None || w.deck.rec == self.deck.rec && self.deck.rec->0.lane != i);
    }

    /// UNDO, REVERSE and COPY do not touch the recorder.
    pub proof fn lemma_loops_on_time(self, now: Frame, i: int)
        requires
            self.inv(now),
            self.on_time(now),
            0 <= i < TRACK_COUNT,
        ensures
            self.undone(now, i).on_time(now),
            self.turned(now, i).on_time(now),
            self.copied(now, i).on_time(now),
    {
        self.lemma_first_target(0);
        if self.deck.rec is Some {
            self.lemma_rec(now);
            self.lemma_lane(now, self.deck.rec->0.lane as int);
        }
    }
}

impl World {
    proof fn lemma_act_on_time(self, now: Frame, align: Frame, i: int, action: Action)
        requires
            self.inv(now),
            self.on_time(now),
            0 <= i < TRACK_COUNT,
            0 <= align <= grid::LOOP_LIMIT,
        ensures
            self.act(now, align, i, action).on_time(now),
    {
        reveal(World::act);
        match action {
            Action::RecDub => self.lemma_rec_dubbed_on_time(now, align, i),
            Action::PlayStop => self.lemma_play_stopped_on_time(now, align, i),
            Action::Undo => self.lemma_loops_on_time(now, i),
            Action::Clear => {
                let w = World { deck: Deck { clear_armed: None, ..self.deck }, ..self };
                self.lemma_settings(w, now);
                w.lemma_cleared_on_time(now, i);
            },
            Action::PlayAll => self.lemma_all_played_on_time(now),
            Action::StopAll => self.lemma_all_stopped_on_time(now, align),
            _ => {},
        }
    }

    proof fn lemma_pressed_on_time(self, now: Frame, align: Frame, i: int, action: Action)
        requires
            self.inv(now),
            self.on_time(now),
            0 <= i < TRACK_COUNT,
            0 <= align <= grid::LOOP_LIMIT,
        ensures
            self.pressed(now, align, i, action).on_time(now),
    {
        let w = if action == Action::Clear {
            self
        } else {
            World { deck: Deck { clear_armed: None, ..self.deck }, ..self }
        };
        self.lemma_settings(w, now);
        w.lemma_act_on_time(now, align, i, action);
    }

    /// No command leaves a recorder late.
    pub proof fn lemma_commanded_on_time(self, now: Frame, align: Frame, command: Command)
        requires
            self.inv(now),
            self.on_time(now),
            0 <= align <= grid::LOOP_LIMIT,
        ensures
            self.commanded(now, align, command).on_time(now),
    {
        reveal(World::lane_commanded);
        reveal(World::set);
        match command {
            Command::RecDub(i) if i < TRACK_COUNT => self.lemma_rec_dubbed_on_time(now, align, i as int),
            Command::PlayStop(i) if i < TRACK_COUNT => self.lemma_play_stopped_on_time(now, align, i as int),
            Command::Stop(i) if i < TRACK_COUNT => self.lemma_stopped_on_time(now, i as int),
            Command::Undo(i) if i < TRACK_COUNT => self.lemma_loops_on_time(now, i as int),
            Command::Reverse(i) if i < TRACK_COUNT => self.lemma_loops_on_time(now, i as int),
            Command::Copy(i) if i < TRACK_COUNT => self.lemma_loops_on_time(now, i as int),
            Command::Clear(i) if i < TRACK_COUNT => self.lemma_cleared_on_time(now, i as int),
            Command::PlayAll => self.lemma_all_played_on_time(now),
            Command::StopAll => self.lemma_all_stopped_on_time(now, align),
            Command::ClearAll => self.lemma_cleared_on_time(now, 0),
            Command::Action(action) => self.lemma_pressed_on_time(now, align, self.deck.selected as int, action),
            Command::ActionOn(i, action) if i < TRACK_COUNT => self.lemma_pressed_on_time(
                now,
                align,
                i as int,
                action,
            ),
            _ => {
                if self.deck.rec is Some {
                    self.lemma_rec(now);
                }
            },
        }
    }
}

// ── What is scheduled ──────────────────────────────────────────────────────────────────────────────

impl World {
    /// Nothing is scheduled before a frame.
    pub open spec fn none_before(self, f: int) -> bool {
        forall|g: Frame| #[trigger] self.scheduled(g) ==> f <= g
    }

    /// What is scheduled in one state is scheduled in another whose lanes wait for no less, of the same recorder
    /// and jobs, however far those are.
    pub proof fn lemma_same_schedule(self, after: World)
        requires
            after.deck.rec is Some <==> self.deck.rec is Some,
            after.deck.rec matches Some(r) ==> {
                &&& r.lane == self.deck.rec->0.lane
                &&& r.start == self.deck.rec->0.start
                &&& r.end == self.deck.rec->0.end
                &&& after.lane(r.lane as int).armed == self.lane(r.lane as int).armed
            },
            quieter(self, after),
            after.jobs.len() == self.jobs.len(),
            forall|k: int|
                0 <= k < self.jobs.len() ==> {
                    &&& (#[trigger] after.jobs[k]) is Some <==> self.jobs[k] is Some
                    &&& after.jobs[k] is Some ==> after.jobs[k]->0.done_at() == self.jobs[k]->0.done_at()
                },
        ensures
            forall|g: Frame| #[trigger] after.scheduled(g) ==> self.scheduled(g),
    {
        assert forall|g: Frame| #[trigger] after.scheduled(g) implies self.scheduled(g) by {
            if after.edge_at(g) {
                assert(self.edge_at(g));
            } else if exists|k: int| 0 <= k < TRACK_COUNT && (#[trigger] after.deck.lanes@[k]).expects(g) {
                let k = choose|k: int| 0 <= k < TRACK_COUNT && (#[trigger] after.deck.lanes@[k]).expects(g);
                assert(self.deck.lanes@[k].expects(g));
            } else {
                let k = choose|k: int| 0 <= k < after.jobs.len() && deck::done_on(#[trigger] after.jobs[k], g);
                assert(deck::done_on(self.jobs[k], g));
            }
        }
    }

    /// A first take is longer than what AUTO can look back.
    pub proof fn lemma_look_back_fits(self)
        requires
            self.deck.settings_ok(),
            self.clock.wf(),
            self.clock.sample_rate == self.deck.sample_rate,
            self.deck.master == 0,
        ensures
            grid::max_int(autorec::frames_in(autorec::LOOKBACK_MS as int, self.deck.sample_rate as int), 1)
                <= self.take_frames(),
    {
        reveal(deck::take_bound);
        let (rate, bpm, fpb) = (self.deck.sample_rate as int, self.clock.bpm as int, self.fpb());
        let cap = self.deck.capacity as int;
        grid::lemma_bar_bounds(bpm, rate);
        vstd::arithmetic::div_mod::lemma_fundamental_div_mod(480 * rate + bpm, 2 * bpm);
        vstd::arithmetic::div_mod::lemma_mod_bound(480 * rate + bpm, 2 * bpm);
        assert(480 * rate < 600 * (fpb + 1)) by (nonlinear_arith)
            requires
                480 * rate + bpm == (2 * bpm) * fpb + (480 * rate + bpm) % (2 * bpm),
                (480 * rate + bpm) % (2 * bpm) < 2 * bpm,
                0 < bpm <= 300,
                fpb >= 1,
        ;
        let bars = grid::clamped_bars(self.deck.fixed_bars as int, grid::whole_bars(cap, fpb));
        grid::lemma_whole_bars_fit(bars, cap, fpb, cap);
    }

    /// AUTO's take ends where its bound says.
    pub proof fn lemma_begun_schedule(self, after: World, at: Frame)
        requires
            self.deck.rec is Some,
            self.deck.rec->0.lane < TRACK_COUNT,
            after.deck.rec matches Some(r) && r.lane == self.deck.rec->0.lane,
            !after.lane(after.deck.rec->0.lane as int).armed,
            forall|k: int|
                0 <= k < TRACK_COUNT ==> (#[trigger] after.deck.lanes@[k]).stop_at == self.deck.lanes@[k].stop_at
                    && after.deck.lanes@[k].switch_at == self.deck.lanes@[k].switch_at,
            after.jobs == self.jobs,
        ensures
            self.none_before(at as int) && (after.deck.rec->0.end matches Some(e) ==> at <= e) ==> after.none_before(
                at as int,
            ),
    {
        if self.none_before(at as int) && (after.deck.rec->0.end matches Some(e) ==> at <= e) {
            assert forall|g: Frame| #[trigger] after.scheduled(g) implies at <= g by {
                if exists|k: int| 0 <= k < TRACK_COUNT && (#[trigger] after.deck.lanes@[k]).expects(g) {
                    let k = choose|k: int| 0 <= k < TRACK_COUNT && (#[trigger] after.deck.lanes@[k]).expects(g);
                    assert(self.deck.lanes@[k].expects(g));
                    assert(self.scheduled(g));
                } else if !after.edge_at(g) {
                    let k = choose|k: int| 0 <= k < after.jobs.len() && deck::done_on(#[trigger] after.jobs[k], g);
                    assert(deck::done_on(self.jobs[k], g));
                    assert(self.scheduled(g));
                }
            }
        }
    }
}

} // verus!
