//! The commands, when each may run, and the hands-free actions with their refusals.

use vstd::prelude::*;

use crate::api::{LaneState, TRACK_COUNT};
use crate::control::{Control, Cx};
use crate::deck;
use crate::deck::{Applied, FxAction, JobKind, Lane, Visit};
use crate::grid::{next_boundary, Frame, RetakeStop};
use crate::keeps;
use crate::tasks;

verus! {

impl Control {
    /// When a command on `lane` may run: it waits for the block jobs on that lane, and for a pending
    /// Restore when it may take the free buffer. Ending a capture or silencing a lane never waits, and a
    /// command is judged when it is pressed: one that would do nothing then is dropped rather than held.
    pub(crate) fn wait_for(&self, cx: &Cx, lane: Option<usize>, needs_free: bool) -> (answer: Applied)
        requires
            self.ready(*cx),
        ensures
            answer == self.world(*cx).wait_answer(lane, needs_free),
            answer == Applied::Done <==> self.world(*cx).wait(lane, needs_free) is None,
    {
        let mut until: Option<Frame> = None;
        let mut k: usize = 0;
        assert(self.jobs@.take(0) =~= Seq::empty());
        while k < self.jobs.len()
            invariant
                k <= self.jobs@.len(),
                self.ready(*cx),
                until is Some <==> deck::delay_until(self.jobs@.take(k as int), lane, needs_free) is Some,
                until matches Some(f) ==> Some(f as int) == deck::delay_until(
                    self.jobs@.take(k as int),
                    lane,
                    needs_free,
                ),
            decreases self.jobs@.len() - k,
        {
            proof {
                reveal(deck::jobs_ok);
                let t = self.jobs@.take(k + 1);
                assert(t.drop_last() =~= self.jobs@.take(k as int));
                assert(t.last() == self.jobs@[k as int]);
            }
            match self.jobs[k] {
                Some(job) => {
                    let here: bool = match lane {
                        None => true,
                        Some(l) => job.lane == l || match job.kind {
                            JobKind::LaneCopy { from, .. } => from == l,
                            _ => false,
                        },
                    };
                    if here || (needs_free && matches!(job.kind, JobKind::Restore { .. })) {
                        let done: Frame = job.done_frame();
                        until = match until {
                            Some(f) => if f < done {
                                Some(done)
                            } else {
                                Some(f)
                            },
                            None => Some(done),
                        };
                    }
                },
                None => {},
            }
            k = k + 1;
        }
        assert(self.jobs@.take(k as int) =~= self.jobs@);
        match until {
            Some(f) => Applied::WaitUntil(f),
            None => Applied::Done,
        }
    }

    pub fn rec_dub(&mut self, cx: &mut Cx, i: usize) -> (answer: Applied)
        requires
            i < TRACK_COUNT,
            old(self).ready(*old(cx)),
        ensures
            final(self).ready(*final(cx)),
            final(cx).when(*old(cx)),
            final(self).deck.capacity == old(self).deck.capacity,
            answer == old(self).world(*old(cx)).rec_dub_answer(i as int),
            final(self).world(*final(cx)) == old(self).world(*old(cx)).rec_dubbed(
                old(cx).now,
                old(cx).align,
                i as int,
            ),
    {
        let t = self.deck.lanes[i];
        if t.stop_at.is_some() || t.state == LaneState::Stopped {
            return Applied::Done;
        }
        if t.state == LaneState::Playing && (self.deck.rec.is_some() || t.reversed) {
            reveal(crate::deck::World::overdubbing);
            return Applied::Done;
        }
        if t.state == LaneState::Recording || t.state == LaneState::Overdubbing {
            self.stop_capture(cx, i);
            return Applied::Done;
        }
        let wait: Applied = self.wait_for(cx, Some(i), true);
        if wait != Applied::Done {
            return wait;
        }
        proof {
            keeps::lemma_none_delays(self.jobs@, Some(i), true);
            tasks::lemma_free_undelayed(self.jobs@, i as int, true);
        }
        if t.state == LaneState::Empty {
            self.record_on(cx, i);
        } else {
            self.start_overdub(cx, i);
        }
        Applied::Done
    }

    /// REC on an EMPTY lane. RETAKE: REC on another lane approves the rolling take; this lane records
    /// from its pass end. With nothing kept yet the press is ignored, like any second recorder.
    pub(crate) fn record_on(&mut self, cx: &mut Cx, i: usize)
        requires
            i < TRACK_COUNT,
            old(self).ready(*old(cx)),
            old(self).deck.lanes@[i as int].state == LaneState::Empty,
            old(self).deck.lanes@[i as int].stop_at is None,
            keeps::no_restore(old(self).jobs@),
            old(self).world(*old(cx)).wait(Some(i), true) is None,
        ensures
            final(self).ready(*final(cx)),
            final(cx).when(*old(cx)),
            final(self).deck.capacity == old(self).deck.capacity,
            final(self).world(*final(cx)) == old(self).world(*old(cx)).rec_dubbed(
                old(cx).now,
                old(cx).align,
                i as int,
            ),
    {
        if self.is_rolling(cx) {
            let mut rec = self.deck.rec.unwrap();
            proof {
                self.world(*cx).lemma_rec(cx.now);
                self.world(*cx).lemma_lane(cx.now, i as int);
            }
            let approved: bool = self.retake_plan(cx, &rec) != RetakeStop::StopNow;
            if approved {
                rec.handoff = Some(i);
                proof {
                    self.world(*cx).lemma_rec_changed(rec, cx.now);
                }
                self.deck.rec = Some(rec);
                self.stop_capture(cx, rec.lane);
            }
        } else {
            self.start_recording(cx, i, None);
        }
    }

    /// A RETAKE take is rolling: past its downbeat, not yet approved or stopped.
    pub(crate) fn is_rolling(&self, cx: &Cx) -> (r: bool)
        requires
            self.ready(*cx),
        ensures
            r == self.world(*cx).rolling(),
    {
        match self.deck.rec {
            Some(r) => {
                proof {
                    self.world(*cx).lemma_rec(cx.now);
                }
                r.roll.is_some() && !self.deck.lanes[r.lane].armed
            },
            None => false,
        }
    }

    pub fn play_stop(&mut self, cx: &mut Cx, i: usize) -> (answer: Applied)
        requires
            i < TRACK_COUNT,
            old(self).ready(*old(cx)),
        ensures
            final(self).ready(*final(cx)),
            final(cx).when(*old(cx)),
            final(self).deck.capacity == old(self).deck.capacity,
            answer == old(self).world(*old(cx)).play_stop_answer(i as int),
            final(self).world(*final(cx)) == old(self).world(*old(cx)).play_stopped(
                old(cx).now,
                old(cx).align,
                i as int,
            ),
    {
        match self.deck.lanes[i].state {
            LaneState::Empty => Applied::Done,
            LaneState::Recording | LaneState::Overdubbing => {
                self.stop_playing_capture(cx, i);
                Applied::Done
            },
            LaneState::Playing => {
                self.stop_playing(cx, i);
                Applied::Done
            },
            LaneState::Stopped => {
                // Only a resume waits: playback would start reading where a job has not been yet.
                let wait: Applied = self.wait_for(cx, Some(i), false);
                if wait == Applied::Done {
                    self.start_playing(cx, i);
                }
                wait
            },
        }
    }

    /// PLAY/STOP on a capture: it ends as a stop gesture ends it, and the lane lands STOPPED.
    pub(crate) fn stop_playing_capture(&mut self, cx: &mut Cx, i: usize)
        requires
            i < TRACK_COUNT,
            old(self).ready(*old(cx)),
            old(self).deck.lanes@[i as int].is_capturing(),
        ensures
            final(self).ready(*final(cx)),
            final(cx).when(*old(cx)),
            final(self).deck.capacity == old(self).deck.capacity,
            final(self).world(*final(cx)) == old(self).world(*old(cx)).play_stopped(
                old(cx).now,
                old(cx).align,
                i as int,
            ),
    {
        if self.deck.lanes[i].stop_at.is_some() {
            self.stop(cx, i);
            return;
        }
        let ghost w = self.world(*cx);
        match self.deck.rec {
            Some(mut rec) => {
                proof {
                    w.lemma_rec(cx.now);
                }
                rec.stop_playback = true;
                proof {
                    w.lemma_rec_changed(rec, cx.now);
                }
                self.deck.rec = Some(rec);
            },
            None => {},
        }
        self.stop_capture(cx, i);
    }

    /// PLAY/STOP on a playing lane: silent now, or at the loop's end; a second press silences now.
    pub(crate) fn stop_playing(&mut self, cx: &mut Cx, i: usize)
        requires
            i < TRACK_COUNT,
            old(self).ready(*old(cx)),
            old(self).deck.lanes@[i as int].state == LaneState::Playing,
        ensures
            final(self).ready(*final(cx)),
            final(cx).when(*old(cx)),
            final(self).deck.capacity == old(self).deck.capacity,
            final(self).world(*final(cx)) == old(self).world(*old(cx)).play_stopped(
                old(cx).now,
                old(cx).align,
                i as int,
            ),
    {
        if self.deck.lanes[i].stop_at.is_none() && self.deck.loop_end_stop {
            let at: Frame = self.boundary(cx);
            proof {
                self.world(*cx).lemma_boundary(cx.now);
                self.world(*cx).lemma_stop_set(cx.now, i as int, at);
            }
            self.deck.lanes[i] = Lane { stop_at: Some(at), ..self.deck.lanes[i] };
        } else {
            self.stop(cx, i);
        }
    }

    /// PLAY/STOP on a STOPPED lane that waits for nothing.
    pub(crate) fn start_playing(&mut self, cx: &mut Cx, i: usize)
        requires
            i < TRACK_COUNT,
            old(self).ready(*old(cx)),
            old(self).deck.lanes@[i as int].state == LaneState::Stopped,
            old(self).world(*old(cx)).wait(Some(i), false) is None,
        ensures
            final(self).ready(*final(cx)),
            final(cx).when(*old(cx)),
            final(self).deck.capacity == old(self).deck.capacity,
            final(self).world(*final(cx)) == old(self).world(*old(cx)).play_stopped(
                old(cx).now,
                old(cx).align,
                i as int,
            ),
    {
        if self.deck.lanes[i].stop_at.is_some() {
            self.stop(cx, i);
        } else {
            proof {
                tasks::lemma_free_undelayed(self.jobs@, i as int, false);
                tasks::lemma_rests_free(self.jobs@, i as int, cx.now);
            }
            self.resume(cx, i, true);
        }
    }

    /// The loop boundary at or after now.
    pub(crate) fn boundary(&self, cx: &Cx) -> (at: Frame)
        requires
            self.ready(*cx),
        ensures
            at == self.world(*cx).boundary(cx.now),
    {
        proof {
            self.world(*cx).lemma_boundary(cx.now);
        }
        next_boundary(self.deck.anchor, self.deck.master, cx.now)
    }

    /// The Stop command: abort whatever the lane captures (nothing is kept but a committed loop) and
    /// silence it now. Silence never waits for a block job.
    pub fn stop_command(&mut self, cx: &mut Cx, i: usize) -> (answer: Applied)
        requires
            i < TRACK_COUNT,
            old(self).ready(*old(cx)),
        ensures
            final(self).ready(*final(cx)),
            final(cx).when(*old(cx)),
            final(self).deck.capacity == old(self).deck.capacity,
            answer == Applied::Done,
            final(self).world(*final(cx)) == old(self).world(*old(cx)).stopped(old(cx).now, i as int),
    {
        self.stop(cx, i);
        Applied::Done
    }

    /// Playback follows the lane's logical buffer: now when stopped, on the next boundary when playing.
    fn follow_logical(&mut self, cx: &Cx, i: usize, boundary: Frame)
        requires
            i < TRACK_COUNT,
            boundary == old(self).world(*cx).boundary(cx.now),
        ensures
            final(self).detector == old(self).detector,
            final(self).world(*cx) == old(self).world(*cx).followed(cx.now, i as int),
    {
        let mut t = self.deck.lanes[i];
        if t.state == LaneState::Playing {
            t.switch_at = Some(boundary);
        } else {
            t.audible = t.logical();
            t.switch_at = None;
        }
        self.deck.lanes[i] = t;
    }

    pub fn undo(&mut self, cx: &mut Cx, i: usize) -> (answer: Applied)
        requires
            i < TRACK_COUNT,
            old(self).ready(*old(cx)),
        ensures
            final(self).ready(*final(cx)),
            final(cx).when(*old(cx)),
            final(self).deck.capacity == old(self).deck.capacity,
            answer == old(self).world(*old(cx)).undo_answer(i as int),
            final(self).world(*final(cx)) == old(self).world(*old(cx)).undone(old(cx).now, i as int),
    {
        proof {
            self.world(*cx).lemma_undone(cx.now, i as int);
        }
        let mut t = self.deck.lanes[i];
        if !t.undo_valid || t.stop_at.is_some() || !t.committed() || self.deck.master == 0 {
            return Applied::Done;
        }
        let wait: Applied = self.wait_for(cx, Some(i), false);
        if wait != Applied::Done {
            return wait;
        }
        let boundary: Frame = self.boundary(cx);
        let (live, reversed): (usize, bool) = (t.live, t.reversed);
        t.live = t.spare;
        t.spare = live;
        t.reversed = t.spare_reversed;
        t.spare_reversed = reversed;
        self.deck.lanes[i] = t;
        self.follow_logical(cx, i, boundary);
        Applied::Done
    }

    pub fn reverse(&mut self, cx: &mut Cx, i: usize) -> (answer: Applied)
        requires
            i < TRACK_COUNT,
            old(self).ready(*old(cx)),
        ensures
            final(self).ready(*final(cx)),
            final(cx).when(*old(cx)),
            final(self).deck.capacity == old(self).deck.capacity,
            answer == old(self).world(*old(cx)).reverse_answer(i as int),
            final(self).world(*final(cx)) == old(self).world(*old(cx)).turned(old(cx).now, i as int),
    {
        proof {
            self.world(*cx).lemma_turned(cx.now, i as int);
        }
        let mut t = self.deck.lanes[i];
        if t.stop_at.is_some() || !t.committed() || self.deck.master == 0 {
            return Applied::Done;
        }
        let wait: Applied = self.wait_for(cx, Some(i), false);
        if wait != Applied::Done {
            return wait;
        }
        let boundary: Frame = self.boundary(cx);
        t.reversed = !t.reversed;
        self.deck.lanes[i] = t;
        self.follow_logical(cx, i, boundary);
        Applied::Done
    }

    /// The first lane that may take a copy.
    fn find_target(&self, cx: &Cx) -> (j: Option<usize>)
        ensures
            j matches Some(j) ==> self.world(*cx).first_target(0) == Some(j as int),
            j is None ==> self.world(*cx).first_target(0) is None,
    {
        let mut k: usize = 0;
        while k < TRACK_COUNT
            invariant
                k <= TRACK_COUNT,
                self.world(*cx).first_target(0) == self.world(*cx).first_target(k as int),
            decreases TRACK_COUNT - k,
        {
            let recorders: bool = match self.deck.rec {
                Some(r) => r.lane == k || (match r.handoff {
                    Some(n) => n == k,
                    None => false,
                }),
                None => false,
            };
            if self.deck.lanes[k].state == LaneState::Empty && !recorders {
                return Some(k);
            }
            k = k + 1;
        }
        None
    }

    pub fn copy(&mut self, cx: &mut Cx, i: usize) -> (answer: Applied)
        requires
            i < TRACK_COUNT,
            old(self).ready(*old(cx)),
        ensures
            final(self).ready(*final(cx)),
            final(cx).when(*old(cx)),
            final(self).deck.capacity == old(self).deck.capacity,
            answer == old(self).world(*old(cx)).copy_answer(i as int),
            final(self).world(*final(cx)) == old(self).world(*old(cx)).copied(old(cx).now, i as int),
    {
        proof {
            self.world(*cx).lemma_copied(cx.now, i as int);
            self.world(*cx).lemma_first_target(0);
        }
        let src = self.deck.lanes[i];
        if !src.committed() {
            return Applied::Done;
        }
        let j: usize = match self.find_target(cx) {
            Some(j) => j,
            None => {
                return Applied::Done;
            },
        };
        let wait: Applied = self.wait_for(cx, Some(i), false);
        if wait != Applied::Done {
            return wait;
        }
        let master: Frame = self.deck.master;
        let mut t = self.deck.lanes[j];
        t.length = master;
        t.period = master;
        t.written = master;
        t.reversed = src.reversed;
        t.audible = t.logical();
        t.volume = src.volume;
        t.muted = src.muted;
        t.state = LaneState::Stopped;
        let dst: usize = t.live;
        self.deck.lanes[j] = t;
        cx.fx.push(FxAction::Copy { from: i as u8, to: j as u8 });
        let resume: bool = src.state == LaneState::Playing && src.stop_at.is_none();
        let kind = JobKind::LaneCopy { src: src.live, dst, from: i, to: j, resume };
        self.push_job(cx.now, j, kind, Visit { lo: 0, span: master, off: 0, modulus: master });
        Applied::Done
    }

    pub fn clear(&mut self, cx: &mut Cx, i: usize) -> (answer: Applied)
        requires
            i < TRACK_COUNT,
            old(self).ready(*old(cx)),
        ensures
            final(self).ready(*final(cx)),
            final(cx).when(*old(cx)),
            final(self).deck.capacity == old(self).deck.capacity,
            answer == old(self).world(*old(cx)).clear_answer(i as int),
            final(self).world(*final(cx)) == old(self).world(*old(cx)).cleared(old(cx).now, i as int),
    {
        if self.deck.lanes[i].state == LaneState::Empty {
            return Applied::Done;
        }
        let wait: Applied = self.wait_for(cx, Some(i), false);
        if wait != Applied::Done {
            return wait;
        }
        proof {
            tasks::lemma_free_undelayed(self.jobs@, i as int, false);
        }
        self.clear_now(cx, i);
        Applied::Done
    }

    pub(crate) fn clear_now(&mut self, cx: &mut Cx, i: usize)
        requires
            i < TRACK_COUNT,
            old(self).ready(*old(cx)),
            tasks::free_of(old(self).jobs@, i as int),
        ensures
            final(self).ready(*final(cx)),
            final(cx).when(*old(cx)),
            final(self).deck.capacity == old(self).deck.capacity,
            final(self).world(*final(cx)) == old(self).world(*old(cx)).cleared_now(old(cx).now, i as int),
            final(self).jobs@ == old(self).jobs@,
    {
        self.release_recorder(cx, i);
        let t = self.deck.lanes[i];
        cx.fx.push(FxAction::Reset { lane: i as u8 });
        self.deck.lanes[i] = Lane::new(t.live, t.spare);
        self.reset_master_if_blank(cx);
        proof {
            old(self).world(*old(cx)).lemma_cleared_now(cx.now, i as int);
        }
    }
}

} // verus!
