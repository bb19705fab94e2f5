//! The looper's commands and settings.

use vstd::prelude::*;

use crate::api::{Action, Refusal, TRACK_COUNT};
use crate::autorec::{MAX_SENSITIVITY, MIN_SENSITIVITY};
use crate::control::Cx;
use crate::deck::{Applied, Deck, Lane, World, MAX_FIXED_BARS};
use crate::float::{Double, Single, SINGLE_ONE_AND_A_HALF};
use crate::grid;
use crate::grid::Frame;
use crate::looper::Looper;

verus! {

impl Looper {
    pub fn rec_dub(&mut self, cx: &mut Cx, i: usize) -> (answer: Applied)
        requires
            i < TRACK_COUNT,
            old(self).ready(*old(cx)),
        ensures
            final(self).ready(*final(cx)),
            final(cx).when(*old(cx)),
            final(self).same_tape(old(self)),
            final(self).control.deck.capacity == old(self).control.deck.capacity,
            answer == old(self).world(*old(cx)).rec_dub_answer(i as int),
            final(self).world(*final(cx)) == old(self).world(*old(cx)).rec_dubbed(old(cx).now, old(cx).align, i as int),
    {
        self.control.rec_dub(cx, i)
    }

    pub fn play_stop(&mut self, cx: &mut Cx, i: usize) -> (answer: Applied)
        requires
            i < TRACK_COUNT,
            old(self).ready(*old(cx)),
        ensures
            final(self).ready(*final(cx)),
            final(cx).when(*old(cx)),
            final(self).same_tape(old(self)),
            final(self).control.deck.capacity == old(self).control.deck.capacity,
            answer == old(self).world(*old(cx)).play_stop_answer(i as int),
            final(self).world(*final(cx)) == old(self).world(*old(cx)).play_stopped(old(cx).now, old(cx).align, i as int),
    {
        self.control.play_stop(cx, i)
    }

    /// The Stop command: abort whatever the lane captures (nothing is kept but a committed loop) and
    /// silence it now. Silence never waits for a block job.
    pub fn stop_command(&mut self, cx: &mut Cx, i: usize) -> (answer: Applied)
        requires
            i < TRACK_COUNT,
            old(self).ready(*old(cx)),
        ensures
            final(self).ready(*final(cx)),
            final(cx).when(*old(cx)),
            final(self).same_tape(old(self)),
            final(self).control.deck.capacity == old(self).control.deck.capacity,
            answer == Applied::Done,
            final(self).world(*final(cx)) == old(self).world(*old(cx)).stopped(old(cx).now, i as int),
    {
        self.control.stop_command(cx, i)
    }

    pub fn undo(&mut self, cx: &mut Cx, i: usize) -> (answer: Applied)
        requires
            i < TRACK_COUNT,
            old(self).ready(*old(cx)),
        ensures
            final(self).ready(*final(cx)),
            final(cx).when(*old(cx)),
            final(self).same_tape(old(self)),
            final(self).control.deck.capacity == old(self).control.deck.capacity,
            answer == old(self).world(*old(cx)).undo_answer(i as int),
            final(self).world(*final(cx)) == old(self).world(*old(cx)).undone(old(cx).now, i as int),
    {
        self.control.undo(cx, i)
    }

    pub fn reverse(&mut self, cx: &mut Cx, i: usize) -> (answer: Applied)
        requires
            i < TRACK_COUNT,
            old(self).ready(*old(cx)),
        ensures
            final(self).ready(*final(cx)),
            final(cx).when(*old(cx)),
            final(self).same_tape(old(self)),
            final(self).control.deck.capacity == old(self).control.deck.capacity,
            answer == old(self).world(*old(cx)).reverse_answer(i as int),
            final(self).world(*final(cx)) == old(self).world(*old(cx)).turned(old(cx).now, i as int),
    {
        self.control.reverse(cx, i)
    }

    pub fn copy(&mut self, cx: &mut Cx, i: usize) -> (answer: Applied)
        requires
            i < TRACK_COUNT,
            old(self).ready(*old(cx)),
        ensures
            final(self).ready(*final(cx)),
            final(cx).when(*old(cx)),
            final(self).same_tape(old(self)),
            final(self).control.deck.capacity == old(self).control.deck.capacity,
            answer == old(self).world(*old(cx)).copy_answer(i as int),
            final(self).world(*final(cx)) == old(self).world(*old(cx)).copied(old(cx).now, i as int),
    {
        self.control.copy(cx, i)
    }

    pub fn clear(&mut self, cx: &mut Cx, i: usize) -> (answer: Applied)
        requires
            i < TRACK_COUNT,
            old(self).ready(*old(cx)),
        ensures
            final(self).ready(*final(cx)),
            final(cx).when(*old(cx)),
            final(self).same_tape(old(self)),
            final(self).control.deck.capacity == old(self).control.deck.capacity,
            answer == old(self).world(*old(cx)).clear_answer(i as int),
            final(self).world(*final(cx)) == old(self).world(*old(cx)).cleared(old(cx).now, i as int),
    {
        self.control.clear(cx, i)
    }

    pub fn play_all(&mut self, cx: &mut Cx) -> (answer: Applied)
        requires
            old(self).ready(*old(cx)),
        ensures
            final(self).ready(*final(cx)),
            final(cx).when(*old(cx)),
            final(self).same_tape(old(self)),
            final(self).control.deck.capacity == old(self).control.deck.capacity,
            answer == old(self).world(*old(cx)).play_all_answer(),
            final(self).world(*final(cx)) == old(self).world(*old(cx)).all_played(old(cx).now),
    {
        self.control.play_all(cx)
    }

    /// Stop every live lane: PLAYING honours the loop-end stop, captures commit and stop at once.
    pub fn stop_all(&mut self, cx: &mut Cx) -> (answer: Applied)
        requires
            old(self).ready(*old(cx)),
        ensures
            final(self).ready(*final(cx)),
            final(cx).when(*old(cx)),
            final(self).same_tape(old(self)),
            final(self).control.deck.capacity == old(self).control.deck.capacity,
            answer == Applied::Done,
            final(self).world(*final(cx)) == old(self).world(*old(cx)).all_stopped(old(cx).now, old(cx).align),
    {
        self.control.stop_all(cx)
    }

    pub fn clear_all(&mut self, cx: &mut Cx) -> (answer: Applied)
        requires
            old(self).ready(*old(cx)),
        ensures
            final(self).ready(*final(cx)),
            final(cx).when(*old(cx)),
            final(self).same_tape(old(self)),
            final(self).control.deck.capacity == old(self).control.deck.capacity,
            answer == old(self).world(*old(cx)).wait_answer(None, false),
            final(self).world(*final(cx)) == old(self).world(*old(cx)).all_cleared(old(cx).now),
    {
        self.control.clear_all(cx)
    }

    /// A hands-free press on lane `i` (the selected one when pressed): the UI's gates, spoken as
    /// refusals.
    pub fn action(&mut self, cx: &mut Cx, i: usize, action: Action) -> (answer: Applied)
        requires
            i < TRACK_COUNT,
            old(self).ready(*old(cx)),
        ensures
            final(self).ready(*final(cx)),
            final(cx).when(*old(cx)),
            final(self).same_tape(old(self)),
            final(self).control.deck.capacity == old(self).control.deck.capacity,
            answer == old(self).world(*old(cx)).action_answer(old(cx).now, i as int, action),
            final(self).world(*final(cx)) == old(self).world(*old(cx)).acted(old(cx).now, old(cx).align, i as int, action),
    {
        self.control.action(cx, i, action)
    }

    /// May the REC/DUB core of lane `i` act now?
    pub fn rec_dub_gate(&self, cx: &Cx, i: usize) -> (gate: Result<(), Refusal>)
        requires
            i < TRACK_COUNT,
            self.ready(*cx),
        ensures
            gate is Ok <==> self.world(*cx).rec_dub_refusal(i as int) is None,
            gate matches Err(reason) ==> self.world(*cx).rec_dub_refusal(i as int) == Some(reason),
    {
        self.control.rec_dub_gate(cx, i)
    }

    pub fn select(&mut self, cx: &Cx, i: usize)
        requires
            old(self).ready(*cx),
        ensures
            final(self).ready(*cx),
            final(self).same_tape(old(self)),
            final(self).control.deck.capacity == old(self).control.deck.capacity,
            final(self).world(*cx) == old(self).world(*cx).with_selected(i as int),
    {
        self.control.select_lane(cx, i);
    }

    /// The transport is audibly alive (the click is a transport mode): until `Frame::MAX` while a lane
    /// records or overdubs, else until the latest loop-end stop of a playing lane; `None` when idle.
    pub fn transport_until(&self, cx: &Cx) -> (until: Option<Frame>)
        ensures
            until == self.world(*cx).transport_end(),
            until is None ==> forall|k: int| 0 <= k < TRACK_COUNT ==> (#[trigger] self.world(*cx).alive_until(k)) is None,
            until matches Some(f) ==> {
                &&& exists|k: int| 0 <= k < TRACK_COUNT && #[trigger] self.world(*cx).alive_until(k) == Some(f)
                &&& forall|k: int|
                    0 <= k < TRACK_COUNT && (#[trigger] self.world(*cx).alive_until(k)) is Some ==> self.world(
                        *cx,
                    ).alive_until(k)->0 <= f
            },
    {
        self.control.transport_until(cx)
    }

    /// An input gap just before `frame`: a capture whose window it falls inside is damaged; AUTO drops
    /// the history it can no longer join.
    pub fn input_gap(&mut self, cx: &Cx, frame: Frame)
        requires
            old(self).ready(*cx),
        ensures
            final(self).ready(*cx),
            final(self).same_tape(old(self)),
            final(self).control.deck.capacity == old(self).control.deck.capacity,
            final(self).world(*cx) == old(self).world(*cx).gapped(frame),
    {
        self.control.input_gap(cx, frame);
    }

    /// The device stopped: what records ends after the last rendered frame and commits as usual (a
    /// RETAKE roll with a kept pass commits that pass), what has retained nothing is cancelled.
    pub fn punch_out(&mut self, cx: &mut Cx)
        requires
            old(self).ready(*old(cx)),
            old(cx).align == 0,
        ensures
            final(self).ready(*final(cx)),
            final(cx).when(*old(cx)),
            final(self).same_tape(old(self)),
            final(self).control.deck.capacity == old(self).control.deck.capacity,
            final(self).world(*final(cx)) == old(self).world(*old(cx)).punched_out(old(cx).now),
    {
        self.control.punch_out(cx);
    }

    // ── Settings ───────────────────────────────────────────────────────────────────────────────────

    pub fn set_loop_end_stop(&mut self, cx: &Cx, on: bool)
        requires
            old(self).ready(*cx),
        ensures
            final(self).ready(*cx),
            final(self).same_tape(old(self)),
            final(self).control.deck.capacity == old(self).control.deck.capacity,
            final(self).world(*cx) == (World {
                deck: Deck { loop_end_stop: on, ..old(self).control.deck },
                ..old(self).world(*cx)
            }),
    {
        let ghost w = self.world(*cx);
        self.control.set_loop_end_stop(on);
        proof {
            w.lemma_settings(self.world(*cx), cx.now);
        }
    }

    pub fn set_fixed_length(&mut self, cx: &Cx, on: bool)
        requires
            old(self).ready(*cx),
        ensures
            final(self).ready(*cx),
            final(self).same_tape(old(self)),
            final(self).control.deck.capacity == old(self).control.deck.capacity,
            final(self).world(*cx) == (World {
                deck: Deck { fixed_length: on, ..old(self).control.deck },
                ..old(self).world(*cx)
            }),
    {
        let ghost w = self.world(*cx);
        self.control.set_fixed_length(on);
        proof {
            w.lemma_settings(self.world(*cx), cx.now);
        }
    }

    /// The FIXED bar count: rounded and kept within 1 and 32; one bar for no number.
    pub fn set_fixed_bars(&mut self, cx: &Cx, bars: Double)
        requires
            old(self).ready(*cx),
        ensures
            final(self).ready(*cx),
            final(self).same_tape(old(self)),
            final(self).control.deck.capacity == old(self).control.deck.capacity,
            final(self).world(*cx) == (World {
                deck: Deck { fixed_bars: if bars.finite() {
                    grid::min_int(grid::max_int(bars.rounded(), 1), MAX_FIXED_BARS as int) as Frame
                } else {
                    1
                }, ..old(self).control.deck },
                ..old(self).world(*cx)
            }),
    {
        let ghost w = self.world(*cx);
        self.control.set_fixed_bars(bars);
        proof {
            w.lemma_settings(self.world(*cx), cx.now);
        }
    }

    pub fn fixed_bars(&self) -> (bars: Frame)
        ensures
            bars == self.control.deck.fixed_bars,
    {
        self.control.fixed_bars()
    }

    pub fn set_retake(&mut self, cx: &Cx, on: bool)
        requires
            old(self).ready(*cx),
        ensures
            final(self).ready(*cx),
            final(self).same_tape(old(self)),
            final(self).control.deck.capacity == old(self).control.deck.capacity,
            final(self).world(*cx) == (World {
                deck: Deck { retake: on, ..old(self).control.deck },
                ..old(self).world(*cx)
            }),
    {
        let ghost w = self.world(*cx);
        self.control.set_retake(on);
        proof {
            w.lemma_settings(self.world(*cx), cx.now);
        }
    }

    pub fn set_auto_record(&mut self, cx: &Cx, on: bool)
        requires
            old(self).ready(*cx),
        ensures
            final(self).ready(*cx),
            final(self).same_tape(old(self)),
            final(self).control.deck.capacity == old(self).control.deck.capacity,
            final(self).world(*cx) == (World {
                deck: Deck { auto_record: on, ..old(self).control.deck },
                ..old(self).world(*cx)
            }),
    {
        let ghost w = self.world(*cx);
        self.control.set_auto_record(on);
        proof {
            w.lemma_settings(self.world(*cx), cx.now);
        }
    }

    /// AUTO's sensitivity: rounded and kept within its range; what it was, for no number.
    pub fn set_auto_sensitivity(&mut self, cx: &Cx, s: Double)
        requires
            old(self).ready(*cx),
        ensures
            final(self).ready(*cx),
            final(self).same_tape(old(self)),
            final(self).control.deck.capacity == old(self).control.deck.capacity,
            final(self).world(*cx) == (World {
                deck: Deck { auto_sensitivity: if s.finite() {
                    grid::min_int(grid::max_int(s.rounded(), MIN_SENSITIVITY as int), MAX_SENSITIVITY as int) as u32
                } else {
                    old(self).control.deck.auto_sensitivity
                }, ..old(self).control.deck },
                ..old(self).world(*cx)
            }),
    {
        let ghost w = self.world(*cx);
        self.control.set_auto_sensitivity(s);
        proof {
            w.lemma_settings(self.world(*cx), cx.now);
        }
    }

    /// The largest FIXED bar count the next take can use.
    pub fn next_take_max_bars(&self, cx: &Cx, bpm: u32) -> (bars: Frame)
        requires
            grid::MIN_BPM <= bpm <= grid::MAX_BPM,
            self.ready(*cx),
        ensures
            bars == self.control.deck.longest_take(
                grid::bar_frames(bpm as int, self.control.deck.sample_rate as int),
            ),
    {
        self.control.next_take_max_bars(bpm)
    }

    /// A lane's volume: within 0 and 1.5, silent for no number.
    pub fn set_volume(&mut self, cx: &Cx, i: usize, v: Single)
        requires
            i < TRACK_COUNT,
            old(self).ready(*cx),
        ensures
            final(self).ready(*cx),
            final(self).same_tape(old(self)),
            final(self).control.deck.capacity == old(self).control.deck.capacity,
            final(self).world(*cx) == old(self).world(*cx).with_lane(
                i as int,
                Lane { volume: v.level(SINGLE_ONE_AND_A_HALF), ..old(self).world(*cx).lane(i as int) },
            ),
    {
        let ghost w = self.world(*cx);
        self.control.set_volume(i, v);
        proof {
            let after = w.with_lane(i as int, Lane { volume: v.level(SINGLE_ONE_AND_A_HALF), ..w.lane(i as int) });
            w.lemma_lane(cx.now, i as int);
            w.lemma_strip(after, cx.now, i as int);
        }
    }

    pub fn set_mute(&mut self, cx: &Cx, i: usize, on: bool)
        requires
            i < TRACK_COUNT,
            old(self).ready(*cx),
        ensures
            final(self).ready(*cx),
            final(self).same_tape(old(self)),
            final(self).control.deck.capacity == old(self).control.deck.capacity,
            final(self).world(*cx) == old(self).world(*cx).with_lane(
                i as int,
                Lane { muted: on, ..old(self).world(*cx).lane(i as int) },
            ),
    {
        let ghost w = self.world(*cx);
        self.control.set_mute(i, on);
        proof {
            let after = w.with_lane(i as int, Lane { muted: on, ..w.lane(i as int) });
            w.lemma_lane(cx.now, i as int);
            w.lemma_strip(after, cx.now, i as int);
        }
    }
}

} // verus!
