//! The looper's control: every EMPTY → RECORDING → PLAYING ⇄ OVERDUBBING (+ STOPPED) transition, the
//! action gates with their refusals, and when each scheduled thing is due, as executable code proved
//! equal to the transitions of [`crate::deck`].

use vstd::prelude::*;

use crate::api::{LaneState, TRACK_COUNT};
use crate::autorec::Detector;
use crate::clock::Clock;
use crate::deck;
use crate::deck::{Deck, FxAction, Job, JobKind, Kind, Lane, Recorder, Visit, World};
use crate::grid;
use crate::grid::{frames_per_bar, loop_pos, Frame, LOOP_LIMIT};
use crate::rings::Feed;

pub mod actions;
pub mod commands;
pub mod schedule;
pub mod takes;
use crate::tasks;

verus! {

/// The time and wiring a looper operation runs with.
pub struct Cx {
    pub now: Frame,
    /// Input frames a take arming now starts after its downbeat.
    pub align: Frame,
    pub clock: Clock,
    pub feed: Feed,
    /// What is to be done to the lanes' effects, in order.
    pub fx: Vec<FxAction>,
}

impl Cx {
    pub open spec fn ok(&self) -> bool {
        &&& self.feed.wf()
        &&& 0 <= self.align <= LOOP_LIMIT
    }

    /// The same moment.
    pub open spec fn when(&self, other: Cx) -> bool {
        self.now == other.now && self.align == other.align
    }
}

/// The control state, its job table and AUTO's ears.
pub struct Control {
    pub deck: Deck,
    pub jobs: Vec<Option<Job>>,
    pub detector: Detector,
}

impl Control {
    pub open spec fn world(&self, cx: Cx) -> World {
        World {
            deck: self.deck,
            jobs: self.jobs@,
            ear: self.detector.ear(),
            clock: cx.clock,
            said: cx.feed.said(),
            fx: cx.fx@,
        }
    }

    /// The parts keep their own invariants, at a moment the engine can be at.
    pub open spec fn sound(&self, cx: Cx) -> bool {
        &&& cx.ok()
        &&& self.detector.wf()
        &&& self.detector.keeps_look_back(self.deck.sample_rate)
        &&& grid::near(cx.now as int)
        &&& self.deck.settings_ok()
        &&& cx.clock.wf()
        &&& cx.clock.sample_rate == self.deck.sample_rate
    }

    /// ... and so does the whole.
    pub open spec fn ready(&self, cx: Cx) -> bool {
        &&& cx.ok()
        &&& self.detector.wf()
        &&& self.detector.keeps_look_back(self.deck.sample_rate)
        &&& self.world(cx).inv(cx.now)
    }

    /// Sound, at the same moment.
    pub open spec fn steady(&self, cx: Cx, before: Cx) -> bool {
        &&& self.sound(cx)
        &&& cx.when(before)
    }

    /// Release the single recorder slot if lane `i` owns it; a first take gives the tempo back.
    pub(crate) fn release_recorder(&mut self, cx: &mut Cx, i: usize)
        requires
            i < TRACK_COUNT,
            old(self).sound(*old(cx)),
        ensures
            final(self).steady(*final(cx), *old(cx)),
            final(self).deck.capacity == old(self).deck.capacity,
            final(self).world(*final(cx)) == old(self).world(*old(cx)).released(i as int),
    {
        match self.deck.rec {
            Some(r) => {
                if r.lane != i {
                    return;
                }
            },
            None => {
                return;
            },
        }
        self.deck.rec = None;
        self.deck.lanes[i].auto_armed = false;
        if self.deck.master == 0 {
            cx.clock.set_locked(false);
        }
    }

    pub(crate) fn reset_master(&mut self, cx: &mut Cx)
        requires
            old(self).sound(*old(cx)),
        ensures
            final(self).steady(*final(cx), *old(cx)),
            final(self).deck.capacity == old(self).deck.capacity,
            final(self).world(*final(cx)) == old(self).world(*old(cx)).master_reset(old(cx).now),
    {
        self.deck.master = 0;
        self.deck.anchor = 0;
        cx.clock.set_locked(false);
        cx.clock.stop_master(cx.now);
    }

    /// Nothing records and every lane is EMPTY.
    pub(crate) fn is_blank(&self, cx: &Cx) -> (r: bool)
        ensures
            r == self.world(*cx).blank(),
    {
        reveal(Deck::is_blank);
        if self.deck.rec.is_some() {
            return false;
        }
        let mut k: usize = 0;
        while k < TRACK_COUNT
            invariant
                k <= TRACK_COUNT,
                forall|j: int| 0 <= j < k ==> (#[trigger] self.deck.lanes@[j]).state == LaneState::Empty,
            decreases TRACK_COUNT - k,
        {
            if self.deck.lanes[k].state != LaneState::Empty {
                assert(self.deck.lanes@[k as int].state != LaneState::Empty);
                reveal(Deck::is_blank);
                return false;
            }
            k = k + 1;
        }
        true
    }

    pub(crate) fn reset_master_if_blank(&mut self, cx: &mut Cx)
        requires
            old(self).sound(*old(cx)),
        ensures
            final(self).steady(*final(cx), *old(cx)),
            final(self).deck.capacity == old(self).deck.capacity,
            final(self).world(*final(cx)) == old(self).world(*old(cx)).reset_if_blank(old(cx).now),
    {
        if self.is_blank(cx) {
            self.reset_master(cx);
        }
    }

    pub(crate) fn push_job(&mut self, now: Frame, lane: usize, kind: JobKind, visit: Visit)
        ensures
            final(self).jobs@ == deck::with_job(
                old(self).jobs@,
                Job { kind, lane, visit, start: now, progress: 0 },
            ),
            final(self).deck == old(self).deck,
            final(self).detector == old(self).detector,
    {
        let job = Job { kind, lane, visit, start: now, progress: 0 };
        let mut k: usize = 0;
        assert(self.jobs@.subrange(0, self.jobs@.len() as int) =~= self.jobs@);
        while k < self.jobs.len()
            invariant
                k <= self.jobs@.len(),
                *self == *old(self),
                job == (Job { kind, lane, visit, start: now, progress: 0 }),
                deck::first_free(self.jobs@) == k + deck::first_free(
                    self.jobs@.subrange(k as int, self.jobs@.len() as int),
                ),
            decreases self.jobs@.len() - k,
        {
            let ghost rest = self.jobs@.subrange(k as int, self.jobs@.len() as int);
            assert(rest[0] == self.jobs@[k as int]);
            if self.jobs[k].is_none() {
                assert(deck::first_free(rest) == 0);
                self.jobs[k] = Some(job);
                return;
            }
            assert(rest.subrange(1, rest.len() as int) =~= self.jobs@.subrange(k + 1, self.jobs@.len() as int));
            k = k + 1;
        }
        assert(deck::first_free(self.jobs@.subrange(k as int, self.jobs@.len() as int)) == 0);
        self.jobs.push(Some(job));
    }

    /// Hand the previous undo target back from the free buffer.
    pub(crate) fn restore_undo(&mut self, cx: &Cx, i: usize, undo_valid: bool, spare_reversed: bool)
        requires
            i < TRACK_COUNT,
        ensures
            final(self).jobs@ == old(self).jobs@,
            final(self).detector == old(self).detector,
            final(self).world(*cx) == old(self).world(*cx).undo_restored(i as int, undo_valid, spare_reversed),
    {
        let mut t = self.deck.lanes[i];
        let spare: usize = t.spare;
        t.spare = self.deck.free;
        t.undo_valid = undo_valid;
        t.spare_reversed = spare_reversed;
        self.deck.lanes[i] = t;
        self.deck.free = spare;
    }

    /// Drop the jobs on lane `i`.
    pub(crate) fn drop_jobs(&mut self, i: usize)
        ensures
            final(self).jobs@ =~= deck::without_lane(old(self).jobs@, i as int),
            final(self).deck == old(self).deck,
            final(self).detector == old(self).detector,
    {
        let mut k: usize = 0;
        while k < self.jobs.len()
            invariant
                k <= self.jobs@.len(),
                self.jobs@.len() == old(self).jobs@.len(),
                self.deck == old(self).deck,
                self.detector == old(self).detector,
                forall|j: int| 0 <= j < k ==> self.jobs@[j] == deck::without_lane(old(self).jobs@, i as int)[j],
                forall|j: int| k <= j < self.jobs@.len() ==> self.jobs@[j] == old(self).jobs@[j],
            decreases self.jobs@.len() - k,
        {
            let on_lane: bool = match self.jobs[k] {
                Some(job) => job.lane == i,
                None => false,
            };
            if on_lane {
                self.jobs[k] = None;
            }
            k = k + 1;
        }
    }

    /// Put the loop back as it was before the overdub, and the undo target from before it.
    pub(crate) fn discard_layer(&mut self, cx: &mut Cx, i: usize, rec: &Recorder)
        requires
            i < TRACK_COUNT,
            old(self).sound(*old(cx)),
            0 <= rec.first_pos < old(self).deck.master,
            0 <= rec.summed <= old(self).deck.master,
        ensures
            final(self).steady(*final(cx), *old(cx)),
            final(self).deck.capacity == old(self).deck.capacity,
            *final(cx) == *old(cx),
            final(self).world(*final(cx)) == old(self).world(*old(cx)).layer_discarded(old(cx).now, i as int, *rec),
    {
        reveal(World::layer_discarded);
        self.drop_jobs(i);
        let master: Frame = self.deck.master;
        let span: Frame = if rec.summed < master {
            rec.summed
        } else {
            master
        };
        let t = self.deck.lanes[i];
        if span == 0 {
            self.restore_undo(cx, i, rec.prev_undo_valid, rec.prev_spare_reversed);
            return;
        }
        // Restore from where playback reads next when that lies inside the layer, so it stays ahead.
        let reader: Frame = loop_pos(cx.now, self.deck.anchor, master);
        let into: Frame = loop_pos(reader, rec.first_pos, master);
        let off: Frame = if into < span {
            into
        } else {
            0
        };
        let kind = JobKind::Restore {
            src: t.spare,
            dst: t.live,
            prev_undo_valid: rec.prev_undo_valid,
            prev_spare_reversed: rec.prev_spare_reversed,
        };
        self.deck.lanes[i].undo_valid = rec.prev_undo_valid;
        self.push_job(cx.now, i, kind, Visit { lo: rec.first_pos, span, off, modulus: master });
    }

    /// Silence the lane now and keep its loop. A capture is aborted: an uncommitted take is dropped,
    /// an overdub layer discarded, a first-take count-in hands the pulse back to free-run.
    pub fn stop(&mut self, cx: &mut Cx, i: usize)
        requires
            i < TRACK_COUNT,
            old(self).ready(*old(cx)),
        ensures
            final(self).ready(*final(cx)),
            final(cx).when(*old(cx)),
            final(self).deck.capacity == old(self).deck.capacity,
            final(self).world(*final(cx)) == old(self).world(*old(cx)).stopped(old(cx).now, i as int),
    {
        reveal(World::stopped);
        match self.deck.lanes[i].state {
            LaneState::Empty => {},
            LaneState::Recording => self.stop_take(cx, i),
            LaneState::Overdubbing => self.stop_layer(cx, i),
            LaneState::Playing | LaneState::Stopped => self.stop_loop(cx, i),
        }
        proof {
            old(self).world(*old(cx)).lemma_stopped(cx.now, i as int);
        }
    }

    /// A take in flight never has a loop yet. An aborted first take leaves a blank session, whose reset
    /// hands the count-in pulse back to free-run.
    pub(crate) fn stop_take(&mut self, cx: &mut Cx, i: usize)
        requires
            i < TRACK_COUNT,
            old(self).ready(*old(cx)),
            old(self).deck.lanes@[i as int].state == LaneState::Recording,
        ensures
            final(self).steady(*final(cx), *old(cx)),
            final(self).deck.capacity == old(self).deck.capacity,
            final(self).world(*final(cx)) == old(self).world(*old(cx)).stopped(old(cx).now, i as int),
    {
        reveal(World::stopped);
        proof {
            self.world(*cx).lemma_lane(cx.now, i as int);
            self.world(*cx).lemma_rec(cx.now);
        }
        self.deck.lanes[i] = Lane { stop_at: None, ..self.deck.lanes[i] };
        self.abort_capture(cx, i);
        self.settle(cx, i, true);
        self.reset_master_if_blank(cx);
    }

    pub(crate) fn stop_layer(&mut self, cx: &mut Cx, i: usize)
        requires
            i < TRACK_COUNT,
            old(self).ready(*old(cx)),
            old(self).deck.lanes@[i as int].state == LaneState::Overdubbing,
        ensures
            final(self).steady(*final(cx), *old(cx)),
            final(self).deck.capacity == old(self).deck.capacity,
            final(self).world(*final(cx)) == old(self).world(*old(cx)).stopped(old(cx).now, i as int),
    {
        reveal(World::stopped);
        proof {
            self.world(*cx).lemma_lane(cx.now, i as int);
            self.world(*cx).lemma_rec(cx.now);
        }
        self.deck.lanes[i] = Lane { stop_at: None, ..self.deck.lanes[i] };
        self.abort_capture(cx, i);
        self.settle(cx, i, false);
    }

    pub(crate) fn stop_loop(&mut self, cx: &mut Cx, i: usize)
        requires
            i < TRACK_COUNT,
            old(self).sound(*old(cx)),
            old(self).deck.lanes@[i as int].is_committed(),
        ensures
            final(self).steady(*final(cx), *old(cx)),
            final(self).deck.capacity == old(self).deck.capacity,
            final(self).world(*final(cx)) == old(self).world(*old(cx)).stopped(old(cx).now, i as int),
    {
        reveal(World::stopped);
        self.deck.lanes[i] = Lane { stop_at: None, ..self.deck.lanes[i] };
        self.settle(cx, i, false);
    }

    pub(crate) fn abort_capture(&mut self, cx: &mut Cx, i: usize)
        requires
            i < TRACK_COUNT,
            old(self).sound(*old(cx)),
            old(self).deck.rec matches Some(rec) ==> rec.kind == Kind::Overdub ==> 0 <= rec.first_pos < old(self).deck.master
                && 0 <= rec.summed <= old(self).deck.master,
        ensures
            final(self).steady(*final(cx), *old(cx)),
            final(self).deck.capacity == old(self).deck.capacity,
            final(self).world(*final(cx)) == old(self).world(*old(cx)).aborted(old(cx).now, i as int),
    {
        self.deck.lanes[i] = Lane { armed: false, ..self.deck.lanes[i] };
        match self.deck.rec {
            Some(rec) => {
                if rec.kind == Kind::Overdub {
                    self.discard_layer(cx, i, &rec);
                }
            },
            None => {},
        }
        self.release_recorder(cx, i);
    }

    pub(crate) fn settle(&mut self, cx: &Cx, i: usize, discard: bool)
        requires
            i < TRACK_COUNT,
        ensures
            final(self).jobs == old(self).jobs,
            final(self).detector == old(self).detector,
            final(self).world(*cx) == old(self).world(*cx).settled(i as int, discard),
    {
        let mut t = self.deck.lanes[i];
        if discard {
            t.written = 0;
        }
        t.audible = t.logical();
        t.switch_at = None;
        t.state = if t.length > 0 {
            LaneState::Stopped
        } else {
            LaneState::Empty
        };
        self.deck.lanes[i] = t;
    }

    // ── Resume ─────────────────────────────────────────────────────────────────────────────────────

    pub(crate) fn any_playing(&self, cx: &Cx) -> (r: bool)
        ensures
            r == self.world(*cx).any_playing(),
    {
        reveal(Deck::has_playing);
        let mut k: usize = 0;
        while k < TRACK_COUNT
            invariant
                k <= TRACK_COUNT,
                forall|j: int| 0 <= j < k ==> (#[trigger] self.deck.lanes@[j]).state != LaneState::Playing,
            decreases TRACK_COUNT - k,
        {
            if self.deck.lanes[k].state == LaneState::Playing {
                assert(self.deck.lanes@[k as int].state == LaneState::Playing);
                reveal(Deck::has_playing);
                return true;
            }
            k = k + 1;
        }
        false
    }

    pub(crate) fn fpb(&self, cx: &Cx) -> (fpb: Frame)
        requires
            self.sound(*cx),
        ensures
            fpb == self.world(*cx).fpb(),
            4 <= fpb <= 6 * self.deck.sample_rate,
    {
        proof {
            grid::lemma_bar_bounds(cx.clock.bpm as int, self.deck.sample_rate as int);
        }
        frames_per_bar(cx.clock.bpm, self.deck.sample_rate)
    }

    /// An idle transport (a master, nothing playing or recording) restarts from the top: the grid
    /// re-anchors at the press and the pulse with it.
    pub(crate) fn restart_if_idle(&mut self, cx: &mut Cx)
        requires
            old(self).ready(*old(cx)),
        ensures
            final(self).ready(*final(cx)),
            final(cx).when(*old(cx)),
            final(self).deck.capacity == old(self).deck.capacity,
            final(self).world(*final(cx)) == old(self).world(*old(cx)).restarted_if_idle(old(cx).now),
            final(self).deck.lanes == old(self).deck.lanes,
            final(self).deck.rec == old(self).deck.rec,
    {
        reveal(World::restarted_if_idle);
        if self.deck.master == 0 || self.deck.rec.is_some() || self.any_playing(cx) {
            return;
        }
        let fpb: Frame = self.fpb(cx);
        let master: Frame = self.deck.master;
        let whole: Frame = master / fpb;
        let bars: Frame = if whole < 1 {
            1
        } else {
            whole
        };
        proof {
            assert(4 * whole <= master) by (nonlinear_arith)
                requires
                    whole == master as int / fpb as int,
                    fpb >= 4,
                    master >= 0,
            ;
        }
        self.deck.anchor = cx.now;
        cx.clock.start_master(cx.now, master, bars, cx.now);
        proof {
            old(self).world(*old(cx)).lemma_restarted(cx.now);
        }
    }

    /// Resume a STOPPED lane: from the top on an idle transport, else joining the live phase.
    /// `decide` is false where a fan-out (PLAY ALL) has decided for all its lanes.
    pub(crate) fn resume(&mut self, cx: &mut Cx, i: usize, decide: bool)
        requires
            i < TRACK_COUNT,
            old(self).ready(*old(cx)),
            !old(self).deck.lanes@[i as int].is_capturing(),
            tasks::rests(old(self).jobs@, i as int, old(cx).now),
        ensures
            final(self).ready(*final(cx)),
            final(cx).when(*old(cx)),
            final(self).deck.capacity == old(self).deck.capacity,
            final(self).world(*final(cx)) == old(self).world(*old(cx)).resumed(old(cx).now, i as int, decide),
            final(self).deck.rec == old(self).deck.rec,
            final(self).jobs@ == old(self).jobs@,
    {
        reveal(World::resumed);
        if self.deck.lanes[i].length == 0 {
            return;
        }
        if decide {
            self.restart_if_idle(cx);
        }
        self.play_lane(cx, i);
        proof {
            old(self).world(*old(cx)).lemma_resumed(cx.now, i as int, decide);
        }
    }

    fn play_lane(&mut self, cx: &Cx, i: usize)
        requires
            i < TRACK_COUNT,
        ensures
            final(self).detector == old(self).detector,
            final(self).world(*cx) == old(self).world(*cx).lane_played(i as int),
    {
        let mut t = self.deck.lanes[i];
        t.stop_at = None;
        t.audible = t.logical();
        t.switch_at = None;
        t.state = LaneState::Playing;
        self.deck.lanes[i] = t;
    }
}

} // verus!
