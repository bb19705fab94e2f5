//! What the settings set, and what a hands-free press does: the command it stands for, or a refusal.

use vstd::prelude::*;

use crate::api::{Action, Command, Event, LaneState, Refusal, TRACK_COUNT};
use crate::clock::Clock;
use crate::deck::{Applied, ClearArm, Deck, FxAction, Lane, World};
use crate::float::{SINGLE_ONE, SINGLE_ONE_AND_A_HALF};
use crate::grid;
use crate::grid::Frame;
use crate::looper::gestures::others_same;

verus! {

// ── Settings ───────────────────────────────────────────────────────────────────────────────────────

/// A switch of the looper is as it was asked for, and nothing else moves.
pub proof fn law_a_switch_is_as_asked(w: World, now: Frame, align: Frame, on: bool)
    ensures
        w.commanded(now, align, Command::SetLoopEndStop(on)) == (World {
            deck: Deck { loop_end_stop: on, ..w.deck },
            ..w
        }),
        w.commanded(now, align, Command::SetFixedLength(on)) == (World {
            deck: Deck { fixed_length: on, ..w.deck },
            ..w
        }),
        w.commanded(now, align, Command::SetRetake(on)) == (World { deck: Deck { retake: on, ..w.deck }, ..w }),
        w.commanded(now, align, Command::SetAutoRecord(on)) == (World {
            deck: Deck { auto_record: on, ..w.deck },
            ..w
        }),
        w.commanded(now, align, Command::SetMetronome(on)) == (World { clock: Clock { metronome: on, ..w.clock }, ..w }),
{
    reveal(World::set);
}

/// The FIXED bar count is the nearest one from 1 to 32, and 1 for what is no number.
pub proof fn law_fixed_bars_are_held_in_range(w: World, now: Frame, align: Frame, bars: crate::float::Double)
    ensures
        ({
            let after = w.commanded(now, align, Command::SetFixedBars(bars));
            let set = after.deck.fixed_bars;
            &&& after == (World { deck: Deck { fixed_bars: set, ..w.deck }, ..w })
            &&& 1 <= set <= 32
            &&& !bars.finite() ==> set == 1
            &&& bars.finite() && bars.rounded() < 1 ==> set == 1
            &&& bars.finite() && 1 <= bars.rounded() <= 32 ==> set == bars.rounded()
            &&& bars.finite() && 32 < bars.rounded() ==> set == 32
        }),
{
    reveal(World::set);
}

/// AUTO's sensitivity is the nearest whole number from 1 to 100; what is no number changes nothing.
pub proof fn law_sensitivity_is_held_in_range(w: World, now: Frame, align: Frame, s: crate::float::Double)
    ensures
        ({
            let after = w.commanded(now, align, Command::SetAutoSensitivity(s));
            let set = after.deck.auto_sensitivity;
            &&& after == (World { deck: Deck { auto_sensitivity: set, ..w.deck }, ..w })
            &&& !s.finite() ==> set == w.deck.auto_sensitivity
            &&& s.finite() && s.rounded() < 1 ==> set == 1
            &&& s.finite() && 1 <= s.rounded() <= 100 ==> set == s.rounded()
            &&& s.finite() && 100 < s.rounded() ==> set == 100
        }),
{
    reveal(World::set);
}

/// A lane's volume is what was asked for, from silence to one and a half; its mute is as asked for. No other
/// lane's are touched.
pub proof fn law_a_lane_is_mixed_as_asked(w: World, now: Frame, align: Frame, i: int, v: crate::float::Single, on: bool)
    requires
        0 <= i < TRACK_COUNT,
    ensures
        ({
            let after = w.commanded(now, align, Command::SetVolume(i as u8, v));
            let set = after.lane(i).volume;
            &&& after.lane(i) == (Lane { volume: set, ..w.lane(i) })
            &&& others_same(w, after, i)
            &&& after == (World { deck: Deck { lanes: after.deck.lanes, ..w.deck }, ..w })
            &&& v.finite() && 0 <= v.rank() <= SINGLE_ONE_AND_A_HALF ==> set == v
            &&& v.finite() && SINGLE_ONE_AND_A_HALF < v.rank() ==> set.bits == SINGLE_ONE_AND_A_HALF
            &&& !v.finite() || v.rank() < 0 ==> set.bits == 0
        }),
        ({
            let after = w.commanded(now, align, Command::SetMute(i as u8, on));
            &&& after.lane(i) == (Lane { muted: on, ..w.lane(i) })
            &&& others_same(w, after, i)
            &&& after == (World { deck: Deck { lanes: after.deck.lanes, ..w.deck }, ..w })
        }),
{
    reveal(World::set);
}

/// The click's volume is what was asked for, from silence to one.
pub proof fn law_the_click_is_as_loud_as_asked(w: World, now: Frame, align: Frame, v: crate::float::Single)
    ensures
        ({
            let after = w.commanded(now, align, Command::SetClickVolume(v));
            let set = after.clock.click_volume;
            &&& after == (World { clock: Clock { click_volume: set, ..w.clock }, ..w })
            &&& v.finite() && 0 <= v.rank() <= SINGLE_ONE ==> set == v
            &&& v.finite() && SINGLE_ONE < v.rank() ==> set.bits == SINGLE_ONE
            &&& !v.finite() || v.rank() < 0 ==> set.bits == 0
        }),
{
    reveal(World::set);
}

/// The tempo is the nearest whole one from 40 to 300 while no take holds it, and stays as it is while one does. A
/// pulse that runs keeps its next beat.
pub proof fn law_the_tempo_is_set_while_free(w: World, now: Frame, align: Frame, bpm: crate::float::Double)
    requires
        w.inv(now),
    ensures
        ({
            let after = w.commanded(now, align, Command::SetBpm(bpm));
            let set = after.clock.bpm;
            &&& after == (World { clock: after.clock, ..w })
            &&& w.clock.locked ==> after.clock == w.clock
            &&& after.clock == (Clock { bpm: set, pulse: after.clock.pulse, ..w.clock })
            &&& !w.clock.locked && bpm.finite() && 40 <= bpm.rounded() <= 300 ==> set == bpm.rounded()
            &&& !w.clock.locked && bpm.finite() && bpm.rounded() < 40 ==> set == 40
            &&& !w.clock.locked && bpm.finite() && 300 < bpm.rounded() ==> set == 300
            &&& !w.clock.locked && !bpm.finite() ==> set == 40
            &&& w.clock.pulse matches Some(p) ==> {
                &&& after.clock.pulse is Some
                &&& after.clock.pulse->0.next == p.next
                &&& after.clock.pulse->0.next_at() == p.next_at()
                &&& !p.free_run ==> after.clock.pulse == w.clock.pulse
                &&& p.free_run && set != w.clock.bpm ==> after.clock.pulse->0.grid.den == set && after.clock.pulse->0.free_run
            }
            &&& w.clock.pulse is None ==> after.clock.pulse is None
        }),
{
    reveal(World::set);
    let set = Clock { bpm: grid::transport_bpm(bpm), ..w.clock };
    if w.clock.pulse is Some {
        w.clock.law_free_run_carries_the_next_beat(now);
        set.law_free_run_carries_the_next_beat(now);
    }
}

/// A lane's effects are told what was asked for, the looper nothing.
pub proof fn law_an_effect_is_set_on_its_lane(
    w: World,
    now: Frame,
    align: Frame,
    i: u8,
    param: crate::dsp::fx::FxParam,
    value: crate::float::Double,
    kind: crate::dsp::fx::FxKind,
    bypassed: bool,
)
    requires
        i < TRACK_COUNT,
    ensures
        w.commanded(now, align, Command::SetFxParam(i, param, value)) == (World {
            fx: w.fx.push(FxAction::Param { lane: i, param, value }),
            ..w
        }),
        w.commanded(now, align, Command::SetFxBypass(i, kind, bypassed)) == (World {
            fx: w.fx.push(FxAction::Bypass { lane: i, kind, bypassed }),
            ..w
        }),
{
    reveal(World::set);
}

/// A command for a lane there is not does nothing.
pub proof fn law_a_lane_there_is_not_does_nothing(w: World, now: Frame, align: Frame, i: u8, on: bool)
    requires
        i >= TRACK_COUNT,
    ensures
        w.commanded(now, align, Command::RecDub(i)) == w,
        w.commanded(now, align, Command::PlayStop(i)) == w,
        w.commanded(now, align, Command::Stop(i)) == w,
        w.commanded(now, align, Command::Undo(i)) == w,
        w.commanded(now, align, Command::Reverse(i)) == w,
        w.commanded(now, align, Command::Copy(i)) == w,
        w.commanded(now, align, Command::Clear(i)) == w,
        w.commanded(now, align, Command::SetMute(i, on)) == w,
{
    reveal(World::lane_commanded);
    reveal(World::set);
}

/// SELECT chooses its lane (the last one past the end), says so, and takes a first CLEAR press back.
pub proof fn law_select_chooses_a_lane(w: World, now: Frame, align: Frame, i: u8)
    ensures
        ({
            let after = w.commanded(now, align, Command::SelectTrack(i));
            let chosen = after.deck.selected;
            &&& chosen == (if i < 5 {
                i as int
            } else {
                4
            })
            &&& after == (World {
                deck: Deck { selected: chosen, clear_armed: None, ..w.deck },
                said: w.said.push(Event::Selected { frame: now, lane: chosen as u8 }),
                ..w
            })
        }),
{
    reveal(World::set);
}

// ── Hands-free presses ─────────────────────────────────────────────────────────────────────────────

/// The next and the previous lane, round and round; a first CLEAR press is taken back.
pub proof fn law_next_and_previous_go_round(w: World, now: Frame, align: Frame)
    requires
        w.inv(now),
    ensures
        ({
            let next = w.commanded(now, align, Command::Action(Action::NextTrack));
            let prev = w.commanded(now, align, Command::Action(Action::PrevTrack));
            let i = w.deck.selected;
            &&& next.deck.selected == (if i < 4 {
                i + 1
            } else {
                0
            })
            &&& prev.deck.selected == (if i > 0 {
                i - 1
            } else {
                4
            })
            &&& next == (World {
                deck: Deck { selected: next.deck.selected, clear_armed: None, ..w.deck },
                said: w.said.push(Event::Selected { frame: now, lane: next.deck.selected as u8 }),
                ..w
            })
            &&& prev == (World {
                deck: Deck { selected: prev.deck.selected, clear_armed: None, ..w.deck },
                said: w.said.push(Event::Selected { frame: now, lane: prev.deck.selected as u8 }),
                ..w
            })
        }),
{
    reveal(World::act);
    let i = w.deck.selected as int;
    assert((i + 1) % 5 == (if i < 4 { i + 1 } else { 0 }));
    assert((i + 4) % 5 == (if i > 0 { i - 1 } else { 4 }));
}

/// The looper with nothing but a refusal said, a first CLEAR press taken back.
pub open spec fn only_refused(w: World, after: World, now: Frame, i: int, reason: Refusal) -> bool {
    after == (World {
        deck: Deck { clear_armed: None, ..w.deck },
        said: w.said.push(Event::Refused { frame: now, lane: i as u8, reason }),
        ..w
    })
}

/// A REC press is refused on a lane that waits for its loop end, that is stopped, that plays backwards, or while
/// another lane records (unless that one rolls and this one is EMPTY); never on the lane that records.
pub proof fn law_a_rec_press_is_refused_for_its_reason(w: World, now: Frame, align: Frame, i: int)
    requires
        w.inv(now),
        i == w.deck.selected,
    ensures
        ({
            let after = w.commanded(now, align, Command::Action(Action::RecDub));
            let t = w.lane(i);
            let captures = t.state == LaneState::Recording || t.state == LaneState::Overdubbing;
            let other = w.deck.rec is Some && w.deck.rec->0.lane != i;
            let rolls = w.deck.rec is Some && w.deck.rec->0.roll is Some && !w.lane(w.deck.rec->0.lane as int).armed;
            &&& !captures && t.stop_at is Some ==> only_refused(w, after, now, i, Refusal::Stopping)
            &&& t.state == LaneState::Stopped && t.stop_at is None ==> only_refused(
                w,
                after,
                now,
                i,
                Refusal::PlayFirst,
            )
            &&& t.state == LaneState::Playing && t.stop_at is None && t.reversed ==> only_refused(
                w,
                after,
                now,
                i,
                Refusal::Reversed,
            )
            &&& t.state == LaneState::Playing && t.stop_at is None && !t.reversed && other ==> only_refused(
                w,
                after,
                now,
                i,
                Refusal::OtherRecording,
            )
            &&& t.state == LaneState::Empty && other && !rolls ==> only_refused(
                w,
                after,
                now,
                i,
                Refusal::OtherRecording,
            )
        }),
{
    w.lemma_lane(now, i);
    lemma_other(w, now, i);
}

/// Another lane captures exactly where the recorder is on another lane.
proof fn lemma_other(w: World, now: Frame, i: int)
    requires
        w.inv(now),
    ensures
        w.other_capturing(i) == (w.deck.rec is Some && w.deck.rec->0.lane != i),
{
    reveal(Deck::rec_ok);
    if w.deck.rec is Some && w.deck.rec->0.lane != i {
        let j = w.deck.rec->0.lane as int;
        assert(w.deck.lanes@[j].is_capturing());
    }
}

/// A REC press that is not refused does what REC on its lane does.
pub proof fn law_a_rec_press_is_rec_on_its_lane(w: World, now: Frame, align: Frame, i: int)
    requires
        w.inv(now),
        0 <= i < TRACK_COUNT,
        ({
            let t = w.lane(i);
            let other = w.deck.rec is Some && w.deck.rec->0.lane != i;
            let rolls = w.deck.rec is Some && w.deck.rec->0.roll is Some && !w.lane(w.deck.rec->0.lane as int).armed;
            ||| t.state == LaneState::Recording || t.state == LaneState::Overdubbing
            ||| t.state == LaneState::Playing && t.stop_at is None && !t.reversed && !other
            ||| t.state == LaneState::Empty && (!other || rolls)
        }),
    ensures
        ({
            let core = World { deck: Deck { clear_armed: None, ..w.deck }, ..w }.commanded(
                now,
                align,
                Command::RecDub(i as u8),
            );
            &&& w.acted(now, align, i, Action::RecDub) == core
            &&& core.deck.selected == w.deck.selected ==> w.commanded(
                now,
                align,
                Command::ActionOn(i as u8, Action::RecDub),
            ) == core
            &&& core.deck.selected == w.deck.selected && w.deck.selected == i ==> w.commanded(
                now,
                align,
                Command::Action(Action::RecDub),
            ) == core
            &&& w.command_answer(now, Command::ActionOn(i as u8, Action::RecDub)) == w.command_answer(
                now,
                Command::RecDub(i as u8),
            )
        }),
{
    reveal(World::act);
    reveal(World::lane_commanded);
    w.lemma_lane(now, i);
    lemma_other(w, now, i);
}

/// A PLAY/STOP press is refused on an EMPTY lane, and else does what PLAY/STOP on its lane does.
pub proof fn law_a_play_stop_press_is_refused_where_nothing_is(w: World, now: Frame, align: Frame, i: int)
    requires
        0 <= i < TRACK_COUNT,
    ensures
        ({
            let after = w.commanded(now, align, Command::ActionOn(i as u8, Action::PlayStop));
            let core = World { deck: Deck { clear_armed: None, ..w.deck }, ..w }.commanded(
                now,
                align,
                Command::PlayStop(i as u8),
            );
            &&& w.lane(i).state == LaneState::Empty ==> only_refused(w, after, now, i, Refusal::Empty)
            &&& w.lane(i).state != LaneState::Empty ==> {
                &&& w.acted(now, align, i, Action::PlayStop) == core
                &&& core.deck.selected == w.deck.selected ==> after == core
                &&& w.command_answer(now, Command::ActionOn(i as u8, Action::PlayStop)) == w.command_answer(
                    now,
                    Command::PlayStop(i as u8),
                )
            }
            &&& i == w.deck.selected ==> after == w.commanded(now, align, Command::Action(Action::PlayStop))
        }),
{
    reveal(World::act);
    reveal(World::lane_commanded);
}

/// An UNDO press is refused where there is no overdub to take back, or while the lane waits for its loop end, and
/// else does what UNDO on its lane does.
pub proof fn law_an_undo_press_is_refused_without_a_layer(w: World, now: Frame, align: Frame, i: int)
    requires
        0 <= i < TRACK_COUNT,
    ensures
        ({
            let after = w.commanded(now, align, Command::ActionOn(i as u8, Action::Undo));
            let core = World { deck: Deck { clear_armed: None, ..w.deck }, ..w }.commanded(
                now,
                align,
                Command::Undo(i as u8),
            );
            let t = w.lane(i);
            let layer = t.undo_valid && (t.state == LaneState::Playing || t.state == LaneState::Stopped);
            &&& !layer ==> only_refused(w, after, now, i, Refusal::NoUndo)
            &&& layer && t.stop_at is Some ==> only_refused(w, after, now, i, Refusal::Stopping)
            &&& layer && t.stop_at is None ==> {
                &&& w.acted(now, align, i, Action::Undo) == core
                &&& core.deck.selected == w.deck.selected ==> after == core
                &&& w.command_answer(now, Command::ActionOn(i as u8, Action::Undo)) == w.command_answer(
                    now,
                    Command::Undo(i as u8),
                )
            }
            &&& i == w.deck.selected ==> after == w.commanded(now, align, Command::Action(Action::Undo))
        }),
{
    reveal(World::act);
    reveal(World::lane_commanded);
}

/// CLEAR takes two presses on the same lane within two and a half seconds: the first only asks for the second,
/// the second clears.
pub proof fn law_a_clear_press_asks_first(w: World, now: Frame, align: Frame, i: int)
    requires
        w.inv(now),
        0 <= i < TRACK_COUNT,
    ensures
        ({
            let after = w.commanded(now, align, Command::ActionOn(i as u8, Action::Clear));
            let core = World { deck: Deck { clear_armed: None, ..w.deck }, ..w }.commanded(
                now,
                align,
                Command::Clear(i as u8),
            );
            let asked = w.deck.clear_armed is Some && w.deck.clear_armed->0.lane == i && 2 * (now
                - w.deck.clear_armed->0.at) < 5 * w.deck.sample_rate;
            let empty = w.lane(i).state == LaneState::Empty;
            &&& empty ==> after == (World {
                said: w.said.push(Event::Refused { frame: now, lane: i as u8, reason: Refusal::NoClear }),
                ..w
            })
            &&& !empty && !asked ==> after == (World {
                deck: Deck { clear_armed: Some(ClearArm { lane: i as usize, at: now }), ..w.deck },
                said: w.said.push(Event::Refused { frame: now, lane: i as u8, reason: Refusal::ConfirmClear }),
                ..w
            })
            &&& !empty && asked && w.command_answer(now, Command::Clear(i as u8)) == Applied::Done ==> {
                &&& w.acted(now, align, i, Action::Clear) == core
                &&& core.deck.selected == w.deck.selected ==> after == core
            }
            &&& !empty && asked && w.command_answer(now, Command::Clear(i as u8)) != Applied::Done ==> after == w
            &&& i == w.deck.selected ==> after == w.commanded(now, align, Command::Action(Action::Clear))
        }),
{
    reveal(World::act);
    reveal(World::lane_commanded);
}

/// PLAY ALL and STOP ALL as presses are the commands, a first CLEAR press taken back.
pub proof fn law_a_press_to_every_lane_is_the_command(w: World, now: Frame, align: Frame, i: int)
    requires
        0 <= i < TRACK_COUNT,
    ensures
        ({
            let calm = World { deck: Deck { clear_armed: None, ..w.deck }, ..w };
            &&& w.acted(now, align, i, Action::PlayAll) == calm.commanded(now, align, Command::PlayAll)
            &&& w.acted(now, align, i, Action::StopAll) == calm.commanded(now, align, Command::StopAll)
            &&& w.command_answer(now, Command::ActionOn(i as u8, Action::PlayAll)) == w.command_answer(
                now,
                Command::PlayAll,
            )
        }),
{
    reveal(World::act);
    reveal(World::lane_commanded);
}

/// A press on the selected lane that has to wait is held for that lane: what is selected meanwhile does not move
/// it.
pub proof fn law_a_press_that_waits_is_held_for_its_lane(w: World, now: Frame, action: Action, at: Frame)
    requires
        w.deck.selected < TRACK_COUNT,
        w.command_answer(now, Command::ActionOn(w.deck.selected as u8, action)) == Applied::WaitUntil(at),
    ensures
        w.command_answer(now, Command::Action(action)) == Applied::Held(
            at,
            Command::ActionOn(w.deck.selected as u8, action),
        ),
{
}

} // verus!
