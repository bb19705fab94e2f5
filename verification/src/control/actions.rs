//! The commands on every lane, the selected lane, and the hands-free actions with their refusals.

use vstd::prelude::*;

use crate::api::{Action, Event, LaneInfo, LaneState, Refusal, TRACK_COUNT};
use crate::control::{Control, Cx};
use crate::deck;
use crate::deck::{Applied, ClearArm, Deck, Lane, World, CONFIRM_WINDOW_MS};
use crate::grid::Frame;
use crate::tasks;

verus! {

impl Control {
    /// Which lanes are STOPPED.
    fn lanes_stopped(&self, cx: &Cx) -> (stopped: [bool; TRACK_COUNT])
        ensures
            stopped@ == self.world(*cx).stopped_lanes(),
    {
        let mut stopped: [bool; TRACK_COUNT] = [false, false, false, false, false];
        let mut k: usize = 0;
        while k < TRACK_COUNT
            invariant
                k <= TRACK_COUNT,
                forall|j: int|
                    0 <= j < k ==> #[trigger] stopped@[j] == (self.deck.lanes@[j].state == LaneState::Stopped),
            decreases TRACK_COUNT - k,
        {
            stopped[k] = self.deck.lanes[k].state == LaneState::Stopped;
            k = k + 1;
        }
        assert(stopped@ =~= self.world(*cx).stopped_lanes());
        stopped
    }

    pub fn play_all(&mut self, cx: &mut Cx) -> (answer: Applied)
        requires
            old(self).ready(*old(cx)),
        ensures
            final(self).ready(*final(cx)),
            final(cx).when(*old(cx)),
            final(self).deck.capacity == old(self).deck.capacity,
            answer == old(self).world(*old(cx)).play_all_answer(),
            final(self).world(*final(cx)) == old(self).world(*old(cx)).all_played(old(cx).now),
    {
        let stopped = self.lanes_stopped(cx);
        let mut any: bool = false;
        let mut k: usize = 0;
        while k < TRACK_COUNT
            invariant
                k <= TRACK_COUNT,
                any <==> exists|j: int| 0 <= j < k && #[trigger] stopped@[j],
            decreases TRACK_COUNT - k,
        {
            any = any || stopped[k];
            k = k + 1;
        }
        assert(any <==> stopped@.contains(true));
        if any {
            let wait: Applied = self.wait_for(cx, None, false);
            if wait != Applied::Done {
                return wait;
            }
            proof {
                tasks::lemma_none_at_all(self.jobs@);
            }
            let ghost w0 = self.world(*cx);
            self.restart_if_idle(cx);
            assert(self.jobs@ == w0.jobs) by {
                reveal(World::restarted_if_idle);
            }
            assert(stopped@ =~= self.world(*cx).stopped_lanes());
            self.resume_all(cx, &stopped);
        }
        Applied::Done
    }

    /// Resume the lanes `stopped` says, without another decision to restart.
    fn resume_all(&mut self, cx: &mut Cx, stopped: &[bool; TRACK_COUNT])
        requires
            old(self).ready(*old(cx)),
            forall|i: int| #[trigger] tasks::free_of(old(self).jobs@, i),
            stopped@ == old(self).world(*old(cx)).stopped_lanes(),
        ensures
            final(self).ready(*final(cx)),
            final(cx).when(*old(cx)),
            final(self).deck.capacity == old(self).deck.capacity,
            final(self).world(*final(cx)) == old(self).world(*old(cx)).resumed_from(old(cx).now, 0, stopped@),
    {
        let ghost w0 = self.world(*cx);
        let ghost cx0 = *cx;
        let mut k: usize = 0;
        while k < TRACK_COUNT
            invariant
                k <= TRACK_COUNT,
                w0.inv(cx0.now),
                stopped@ == w0.stopped_lanes(),
                self.ready(*cx),
                cx.when(cx0),
                self.deck.capacity == old(self).deck.capacity,
                self.deck.rec == w0.deck.rec,
                self.jobs@ == w0.jobs,
                forall|i: int| #[trigger] tasks::free_of(w0.jobs, i),
                w0.resumed_from(cx0.now, 0, stopped@) == self.world(*cx).resumed_from(cx0.now, k as int, stopped@),
            decreases TRACK_COUNT - k,
        {
            if stopped[k] {
                proof {
                    w0.lemma_lane(cx0.now, k as int);
                    self.world(*cx).lemma_lane(cx0.now, k as int);
                    assert(tasks::free_of(w0.jobs, k as int));
                    tasks::lemma_rests_free(w0.jobs, k as int, cx0.now);
                }
                self.resume(cx, k, false);
            }
            k = k + 1;
        }
    }

    fn any_stopping(&self, cx: &Cx) -> (r: bool)
        ensures
            r == self.world(*cx).any_stopping(),
    {
        reveal(Deck::has_stopping);
        let mut k: usize = 0;
        while k < TRACK_COUNT
            invariant
                k <= TRACK_COUNT,
                forall|j: int| 0 <= j < k ==> (#[trigger] self.deck.lanes@[j]).stop_at is None,
            decreases TRACK_COUNT - k,
        {
            if self.deck.lanes[k].stop_at.is_some() {
                assert(self.deck.lanes@[k as int].stop_at is Some);
                reveal(Deck::has_stopping);
                return true;
            }
            k = k + 1;
        }
        false
    }

    /// Stop every live lane: PLAYING honours the loop-end stop, captures commit and stop at once.
    pub fn stop_all(&mut self, cx: &mut Cx) -> (answer: Applied)
        requires
            old(self).ready(*old(cx)),
        ensures
            final(self).ready(*final(cx)),
            final(cx).when(*old(cx)),
            final(self).deck.capacity == old(self).deck.capacity,
            answer == Applied::Done,
            final(self).world(*final(cx)) == old(self).world(*old(cx)).all_stopped(old(cx).now, old(cx).align),
    {
        let ghost w0 = self.world(*cx);
        let ghost cx0 = *cx;
        proof {
            w0.lemma_boundary(cx.now);
        }
        let later: Option<Frame> = if self.deck.loop_end_stop && !self.any_stopping(cx) {
            Some(self.boundary(cx))
        } else {
            None
        };
        let mut k: usize = 0;
        while k < TRACK_COUNT
            invariant
                k <= TRACK_COUNT,
                self.ready(*cx),
                cx.when(cx0),
                self.deck.capacity == old(self).deck.capacity,
                later matches Some(at) ==> deck::kept(at as int),
                w0.stopped_from(cx0.now, cx0.align, 0, later) == self.world(*cx).stopped_from(
                    cx0.now,
                    cx0.align,
                    k as int,
                    later,
                ),
            decreases TRACK_COUNT - k,
        {
            self.stop_one(cx, k, later);
            k = k + 1;
        }
        Applied::Done
    }

    /// STOP ALL on one lane.
    fn stop_one(&mut self, cx: &mut Cx, k: usize, later: Option<Frame>)
        requires
            k < TRACK_COUNT,
            old(self).ready(*old(cx)),
            later matches Some(at) ==> deck::kept(at as int),
        ensures
            final(self).ready(*final(cx)),
            final(cx).when(*old(cx)),
            final(self).deck.capacity == old(self).deck.capacity,
            final(self).world(*final(cx)).stopped_from(old(cx).now, old(cx).align, k + 1, later) == old(self).world(
                *old(cx),
            ).stopped_from(old(cx).now, old(cx).align, k as int, later),
    {
        match self.deck.lanes[k].state {
            LaneState::Playing => {
                match later {
                    Some(at) => {
                        proof {
                            self.world(*cx).lemma_stop_set(cx.now, k as int, at);
                        }
                        self.deck.lanes[k] = Lane { stop_at: Some(at), ..self.deck.lanes[k] };
                    },
                    None => self.stop(cx, k),
                }
            },
            LaneState::Recording | LaneState::Overdubbing => {
                let _ = self.play_stop(cx, k);
            },
            _ => {},
        }
    }

    pub fn clear_all(&mut self, cx: &mut Cx) -> (answer: Applied)
        requires
            old(self).ready(*old(cx)),
        ensures
            final(self).ready(*final(cx)),
            final(cx).when(*old(cx)),
            final(self).deck.capacity == old(self).deck.capacity,
            answer == old(self).world(*old(cx)).wait_answer(None, false),
            final(self).world(*final(cx)) == old(self).world(*old(cx)).all_cleared(old(cx).now),
    {
        let wait: Applied = self.wait_for(cx, None, false);
        if wait != Applied::Done {
            return wait;
        }
        proof {
            tasks::lemma_none_at_all(self.jobs@);
        }
        let ghost w0 = self.world(*cx);
        let ghost cx0 = *cx;
        let mut k: usize = 0;
        while k < TRACK_COUNT
            invariant
                k <= TRACK_COUNT,
                self.ready(*cx),
                cx.when(cx0),
                self.deck.capacity == old(self).deck.capacity,
                self.jobs@ == w0.jobs,
                forall|i: int| #[trigger] tasks::free_of(w0.jobs, i),
                forall|j: int| 0 <= j < k ==> (#[trigger] self.deck.lanes@[j]).state == LaneState::Empty,
                w0.cleared_from(cx0.now, 0) == self.world(*cx).cleared_from(cx0.now, k as int),
            decreases TRACK_COUNT - k,
        {
            assert(tasks::free_of(w0.jobs, k as int));
            self.clear_now(cx, k);
            k = k + 1;
        }
        let ghost w1 = self.world(*cx);
        self.reset_master(cx);
        proof {
            w1.lemma_all_cleared(self.world(*cx), cx.now);
        }
        Applied::Done
    }

    pub fn select(&mut self, i: usize)
        ensures
            final(self).jobs == old(self).jobs,
            final(self).detector == old(self).detector,
            forall|cx: Cx| #[trigger] final(self).world(cx) == old(self).world(cx).with_selected(i as int),
            final(self).deck.selected < TRACK_COUNT,
    {
        self.deck.clear_armed = None;
        self.deck.selected = if i < TRACK_COUNT {
            i
        } else {
            TRACK_COUNT - 1
        };
    }

    /// What a lane shows of itself.
    pub fn info(&self, i: usize) -> (info: LaneInfo)
        requires
            i < TRACK_COUNT,
        ensures
            forall|cx: Cx| info == #[trigger] self.world(cx).info(i as int),
    {
        let t = self.deck.lanes[i];
        let retake_pass: u32 = match self.deck.rec {
            Some(r) => match r.roll {
                Some(roll) => if r.lane == i && !t.armed {
                    roll.pass
                } else {
                    0
                },
                None => 0,
            },
            None => 0,
        };
        LaneInfo {
            state: t.state,
            length: t.length,
            armed: t.armed,
            auto_armed: t.auto_armed,
            can_undo: t.undo_valid && t.committed(),
            can_reverse: t.committed(),
            reversed: t.reversed,
            stop_at: t.stop_at,
            retake_pass,
        }
    }

    fn other_capturing(&self, cx: &Cx, i: usize) -> (r: bool)
        ensures
            r == self.world(*cx).other_capturing(i as int),
    {
        let mut k: usize = 0;
        while k < TRACK_COUNT
            invariant
                k <= TRACK_COUNT,
                forall|j: int| 0 <= j < k && j != i ==> !(#[trigger] self.deck.lanes@[j]).is_capturing(),
            decreases TRACK_COUNT - k,
        {
            if k != i && (self.deck.lanes[k].state == LaneState::Recording || self.deck.lanes[k].state
                == LaneState::Overdubbing) {
                assert(self.deck.lanes@[k as int].is_capturing());
                return true;
            }
            k = k + 1;
        }
        false
    }

    /// May the REC/DUB core of lane `i` act now?
    pub fn rec_dub_gate(&self, cx: &Cx, i: usize) -> (gate: Result<(), Refusal>)
        requires
            i < TRACK_COUNT,
            self.ready(*cx),
        ensures
            gate is Ok <==> self.world(*cx).rec_dub_refusal(i as int) is None,
            gate matches Err(reason) ==> self.world(*cx).rec_dub_refusal(i as int) == Some(reason),
    {
        let t = self.deck.lanes[i];
        if t.state == LaneState::Recording || t.state == LaneState::Overdubbing {
            return Ok(());
        }
        if t.stop_at.is_some() {
            return Err(Refusal::Stopping);
        }
        if t.state == LaneState::Stopped {
            return Err(Refusal::PlayFirst);
        }
        if t.state == LaneState::Playing && t.reversed {
            return Err(Refusal::Reversed);
        }
        if self.other_capturing(cx, i) && !(t.state == LaneState::Empty && self.is_rolling(cx)) {
            return Err(Refusal::OtherRecording);
        }
        Ok(())
    }

    /// Why a hands-free press on lane `i` does nothing, if so.
    fn refused(&self, cx: &Cx, i: usize, action: Action) -> (reason: Option<Refusal>)
        requires
            i < TRACK_COUNT,
            self.ready(*cx),
        ensures
            reason == self.world(*cx).refusal(cx.now, i as int, action),
    {
        match action {
            Action::RecDub => match self.rec_dub_gate(cx, i) {
                Ok(_) => None,
                Err(reason) => Some(reason),
            },
            Action::PlayStop => if self.deck.lanes[i].state == LaneState::Empty {
                Some(Refusal::Empty)
            } else {
                None
            },
            Action::Undo => {
                let t = self.deck.lanes[i];
                if !(t.undo_valid && t.committed()) {
                    Some(Refusal::NoUndo)
                } else if t.stop_at.is_some() {
                    Some(Refusal::Stopping)
                } else {
                    None
                }
            },
            Action::Clear => {
                let confirmed: bool = match self.deck.clear_armed {
                    Some(arm) => arm.lane == i && (cx.now - arm.at) * 1000 < CONFIRM_WINDOW_MS
                        * self.deck.sample_rate as Frame,
                    None => false,
                };
                if self.deck.lanes[i].state == LaneState::Empty {
                    Some(Refusal::NoClear)
                } else if !confirmed {
                    Some(Refusal::ConfirmClear)
                } else {
                    None
                }
            },
            _ => None,
        }
    }

    /// A hands-free press on lane `i` (the selected one when pressed): the UI's gates, spoken as
    /// refusals.
    pub fn action(&mut self, cx: &mut Cx, i: usize, action: Action) -> (answer: Applied)
        requires
            i < TRACK_COUNT,
            old(self).ready(*old(cx)),
        ensures
            final(self).ready(*final(cx)),
            final(cx).when(*old(cx)),
            final(self).deck.capacity == old(self).deck.capacity,
            answer == old(self).world(*old(cx)).action_answer(old(cx).now, i as int, action),
            final(self).world(*final(cx)) == old(self).world(*old(cx)).acted(
                old(cx).now,
                old(cx).align,
                i as int,
                action,
            ),
    {
        let ghost w0 = self.world(*cx);
        let reason: Option<Refusal> = self.refused(cx, i, action);
        if action != Action::Clear {
            self.deck.clear_armed = None;
        }
        match reason {
            Some(reason) => {
                if reason == Refusal::ConfirmClear {
                    self.deck.clear_armed = Some(ClearArm { lane: i, at: cx.now });
                }
                cx.feed.push(Event::Refused { frame: cx.now, lane: i as u8, reason });
                proof {
                    w0.lemma_settings(self.world(*cx), cx.now);
                }
                Applied::Done
            },
            None => {
                proof {
                    w0.lemma_settings(self.world(*cx), cx.now);
                    assert(w0.stopped_lanes() =~= self.world(*cx).stopped_lanes());
                }
                self.act(cx, i, action)
            },
        }
    }

    /// A hands-free press that is not refused.
    fn act(&mut self, cx: &mut Cx, i: usize, action: Action) -> (answer: Applied)
        requires
            i < TRACK_COUNT,
            old(self).ready(*old(cx)),
        ensures
            final(self).ready(*final(cx)),
            final(cx).when(*old(cx)),
            final(self).deck.capacity == old(self).deck.capacity,
            answer == old(self).world(*old(cx)).act_answer(i as int, action),
            final(self).world(*final(cx)) == old(self).world(*old(cx)).act(
                old(cx).now,
                old(cx).align,
                i as int,
                action,
            ),
    {
        reveal(World::act);
        match action {
            Action::RecDub => self.rec_dub(cx, i),
            Action::PlayStop => self.play_stop(cx, i),
            Action::Undo => self.undo(cx, i),
            Action::Clear => {
                let wait: Applied = self.wait_for(cx, Some(i), false);
                if wait == Applied::Done {
                    let ghost w0 = self.world(*cx);
                    self.deck.clear_armed = None;
                    proof {
                        w0.lemma_settings(self.world(*cx), cx.now);
                        tasks::lemma_free_undelayed(self.jobs@, i as int, false);
                    }
                    self.clear_now(cx, i);
                }
                wait
            },
            Action::NextTrack => {
                self.select_lane(cx, (i + 1) % TRACK_COUNT);
                Applied::Done
            },
            Action::PrevTrack => {
                self.select_lane(cx, (i + TRACK_COUNT - 1) % TRACK_COUNT);
                Applied::Done
            },
            Action::PlayAll => self.play_all(cx),
            Action::StopAll => self.stop_all(cx),
        }
    }

    pub(crate) fn select_lane(&mut self, cx: &Cx, i: usize)
        requires
            old(self).ready(*cx),
        ensures
            final(self).ready(*cx),
            final(self).deck.capacity == old(self).deck.capacity,
            final(self).world(*cx) == old(self).world(*cx).with_selected(i as int),
    {
        let ghost w0 = self.world(*cx);
        self.select(i);
        proof {
            w0.lemma_settings(self.world(*cx), cx.now);
        }
    }
}

} // verus!
