//! What each command does: to the looper and the clock, to the plugin slots, and to the sounds the host
//! renders.

use vstd::prelude::*;

use crate::api::{Action, Command, Event, InputSend, InputSendParam, Instrument, NoteTarget, TRACK_COUNT};
use crate::autorec::{MAX_SENSITIVITY, MIN_SENSITIVITY};
use crate::clock::Clock;
use crate::control::Cx;
use crate::deck::{Applied, Deck, FxAction, Lane, World, MAX_FIXED_BARS};
use crate::float::{Double, Single, SINGLE_ONE_AND_A_HALF, SINGLE_ONE};
use crate::grid;
use crate::grid::Frame;
use crate::looper::Looper;
use crate::slots::Rack;

verus! {

/// What a command asks of the built-in instruments and the input sends.
#[derive(Clone, Copy, Debug, PartialEq, Eq, Structural)]
pub enum Sound {
    /// The built-in instrument the notes go to, none while a plugin slot has them.
    Select(Option<Instrument>),
    NoteOn(u8, Single),
    NoteOff(u8),
    PitchBend(Double),
    Modulation(Double),
    AllNotesOff,
    Send(InputSend, bool),
    SendParam(InputSendParam, Double),
}

/// A sound, from a frame on.
#[derive(Clone, Copy, Debug, PartialEq, Eq, Structural)]
pub struct TimedSound {
    pub frame: Frame,
    pub sound: Sound,
}

/// The sound a command asks for, if any.
pub open spec fn sound_of(command: Command) -> Option<Sound> {
    match command {
        Command::SelectInstrument(NoteTarget::Builtin(i)) => Some(Sound::Select(Some(i))),
        Command::SelectInstrument(NoteTarget::Slot(_)) => Some(Sound::Select(None)),
        Command::NoteOn(note, velocity) => Some(Sound::NoteOn(note, velocity)),
        Command::NoteOff(note) => Some(Sound::NoteOff(note)),
        Command::PitchBend(semitones) => Some(Sound::PitchBend(semitones)),
        Command::Modulation(depth) => Some(Sound::Modulation(depth)),
        Command::AllNotesOff => Some(Sound::AllNotesOff),
        Command::SetInputSend(send, on) => Some(Sound::Send(send, on)),
        Command::SetInputSendParam(param, value) => Some(Sound::SendParam(param, value)),
        _ => None,
    }
}

pub fn sound(command: &Command) -> (r: Option<Sound>)
    ensures
        r == sound_of(*command),
{
    match *command {
        Command::SelectInstrument(NoteTarget::Builtin(i)) => Some(Sound::Select(Some(i))),
        Command::SelectInstrument(NoteTarget::Slot(_)) => Some(Sound::Select(None)),
        Command::NoteOn(note, velocity) => Some(Sound::NoteOn(note, velocity)),
        Command::NoteOff(note) => Some(Sound::NoteOff(note)),
        Command::PitchBend(semitones) => Some(Sound::PitchBend(semitones)),
        Command::Modulation(depth) => Some(Sound::Modulation(depth)),
        Command::AllNotesOff => Some(Sound::AllNotesOff),
        Command::SetInputSend(send, on) => Some(Sound::Send(send, on)),
        Command::SetInputSendParam(param, value) => Some(Sound::SendParam(param, value)),
        _ => None,
    }
}

/// The lane a command names, if there is one.
pub fn lane(i: u8) -> (r: Option<usize>)
    ensures
        r == lane_of(i),
{
    if (i as usize) < TRACK_COUNT {
        Some(i as usize)
    } else {
        None
    }
}

pub open spec fn lane_of(i: u8) -> Option<usize> {
    if i < TRACK_COUNT {
        Some(i as usize)
    } else {
        None
    }
}

impl Command {
    /// A command for a lane, or for all of them.
    pub open spec fn is_lane(self) -> bool {
        self is RecDub || self is PlayStop || self is Stop || self is Undo || self is Reverse || self is Copy
            || self is Clear || self is PlayAll || self is StopAll || self is ClearAll
    }

    pub open spec fn is_press(self) -> bool {
        self is Action || self is ActionOn
    }
}

impl World {
    pub open spec fn lane_answer(self, command: Command) -> Applied {
        match command {
            Command::RecDub(i) if i < TRACK_COUNT => self.rec_dub_answer(i as int),
            Command::PlayStop(i) if i < TRACK_COUNT => self.play_stop_answer(i as int),
            Command::Undo(i) if i < TRACK_COUNT => self.undo_answer(i as int),
            Command::Reverse(i) if i < TRACK_COUNT => self.reverse_answer(i as int),
            Command::Copy(i) if i < TRACK_COUNT => self.copy_answer(i as int),
            Command::Clear(i) if i < TRACK_COUNT => self.clear_answer(i as int),
            Command::PlayAll => self.play_all_answer(),
            Command::ClearAll => self.wait_answer(None, false),
            _ => Applied::Done,
        }
    }

    /// A lane command done.
    #[verifier::opaque]
    pub open spec fn lane_commanded(self, now: Frame, align: Frame, command: Command) -> World {
        match command {
            Command::RecDub(i) if i < TRACK_COUNT => self.rec_dubbed(now, align, i as int),
            Command::PlayStop(i) if i < TRACK_COUNT => self.play_stopped(now, align, i as int),
            Command::Stop(i) if i < TRACK_COUNT => self.stopped(now, i as int),
            Command::Undo(i) if i < TRACK_COUNT => self.undone(now, i as int),
            Command::Reverse(i) if i < TRACK_COUNT => self.turned(now, i as int),
            Command::Copy(i) if i < TRACK_COUNT => self.copied(now, i as int),
            Command::Clear(i) if i < TRACK_COUNT => self.cleared(now, i as int),
            Command::PlayAll => self.all_played(now),
            Command::StopAll => self.all_stopped(now, align),
            Command::ClearAll => self.all_cleared(now),
            _ => self,
        }
    }

    /// A hands-free press on a lane; a move of the selection is said.
    pub open spec fn pressed(self, now: Frame, align: Frame, i: int, action: Action) -> World {
        let w = self.acted(now, align, i, action);
        if w.deck.selected != self.deck.selected {
            w.say(Event::Selected { frame: now, lane: w.deck.selected as u8 })
        } else {
            w
        }
    }

    /// What a hands-free press answers: one on the selected lane that waits is held for that lane.
    pub open spec fn press_answer(self, now: Frame, command: Command) -> Applied {
        match command {
            Command::Action(action) => match self.action_answer(now, self.deck.selected as int, action) {
                Applied::WaitUntil(at) => Applied::Held(at, Command::ActionOn(self.deck.selected as u8, action)),
                answer => answer,
            },
            Command::ActionOn(i, action) if i < TRACK_COUNT => self.action_answer(now, i as int, action),
            _ => Applied::Done,
        }
    }

    pub open spec fn press(self, now: Frame, align: Frame, command: Command) -> World {
        match command {
            Command::Action(action) => self.pressed(now, align, self.deck.selected as int, action),
            Command::ActionOn(i, action) if i < TRACK_COUNT => self.pressed(now, align, i as int, action),
            _ => self,
        }
    }

    /// A setting of the looper or its lanes.
    pub open spec fn deck_set(self, command: Command) -> Deck {
        let d = self.deck;
        match command {
            Command::SetLoopEndStop(on) => Deck { loop_end_stop: on, ..d },
            Command::SetFixedLength(on) => Deck { fixed_length: on, ..d },
            Command::SetFixedBars(bars) => Deck {
                fixed_bars: if bars.finite() {
                    grid::min_int(grid::max_int(bars.rounded(), 1), MAX_FIXED_BARS as int) as Frame
                } else {
                    1
                },
                ..d
            },
            Command::SetRetake(on) => Deck { retake: on, ..d },
            Command::SetAutoRecord(on) => Deck { auto_record: on, ..d },
            Command::SetAutoSensitivity(s) => Deck {
                auto_sensitivity: if s.finite() {
                    grid::min_int(grid::max_int(s.rounded(), MIN_SENSITIVITY as int), MAX_SENSITIVITY as int) as u32
                } else {
                    d.auto_sensitivity
                },
                ..d
            },
            _ => d,
        }
    }

    /// A setting made.
    #[verifier::opaque]
    pub open spec fn set(self, now: Frame, command: Command) -> World {
        match command {
            Command::SelectTrack(i) => {
                let w = self.with_selected(i as int);
                w.say(Event::Selected { frame: now, lane: w.deck.selected as u8 })
            },
            Command::SetBpm(bpm) => self.with_clock(self.clock.with_bpm(bpm, now)),
            Command::SetMetronome(on) => self.with_clock(Clock { metronome: on, ..self.clock }),
            Command::SetClickVolume(v) => self.with_clock(
                Clock { click_volume: v.level(SINGLE_ONE), ..self.clock },
            ),
            Command::SetVolume(i, v) if i < TRACK_COUNT => self.with_lane(
                i as int,
                Lane { volume: v.level(SINGLE_ONE_AND_A_HALF), ..self.lane(i as int) },
            ),
            Command::SetMute(i, on) if i < TRACK_COUNT => self.with_lane(
                i as int,
                Lane { muted: on, ..self.lane(i as int) },
            ),
            Command::SetFxParam(i, param, value) if i < TRACK_COUNT => World {
                fx: self.fx.push(FxAction::Param { lane: i, param, value }),
                ..self
            },
            Command::SetFxBypass(i, kind, bypassed) if i < TRACK_COUNT => World {
                fx: self.fx.push(FxAction::Bypass { lane: i, kind, bypassed }),
                ..self
            },
            _ => World { deck: self.deck_set(command), ..self },
        }
    }

    /// What a command answers.
    pub open spec fn command_answer(self, now: Frame, command: Command) -> Applied {
        if command.is_lane() {
            self.lane_answer(command)
        } else if command.is_press() {
            self.press_answer(now, command)
        } else {
            Applied::Done
        }
    }

    /// What a command does to the looper, the clock, the feed and the lanes' effects.
    pub open spec fn commanded(self, now: Frame, align: Frame, command: Command) -> World {
        if command.is_lane() {
            self.lane_commanded(now, align, command)
        } else if command.is_press() {
            self.press(now, align, command)
        } else {
            self.set(now, command)
        }
    }
}

impl Rack {
    /// What a command does to the slots.
    pub open spec fn commanded(&self, before: &Rack, now: Frame, command: Command) -> bool {
        match command {
            Command::SelectInstrument(NoteTarget::Builtin(_)) => self.selected(before, None, before.offset_of(now)),
            Command::SelectInstrument(NoteTarget::Slot(s)) => self.selected(
                before,
                Some(s as usize),
                before.offset_of(now),
            ),
            Command::NoteOn(note, velocity) => self.struck(before, note, velocity, now),
            Command::NoteOff(note) => self.lifted(before, note, now),
            Command::AllNotesOff => self.let_go(before, before.target, before.offset_of(now)),
            Command::SetSlotLive(i, on) => self.lived(before, i as int, on),
            Command::SetSlotGain(i, gain) => self.levelled(before, i as int, gain),
            _ => *self == *before,
        }
    }

    pub fn command(&mut self, now: Frame, command: &Command)
        requires
            old(self).wf(),
            now - old(self).cursor <= u32::MAX,
            grid::fits(now - old(self).cursor),
        ensures
            final(self).wf(),
            final(self).cursor == old(self).cursor,
            final(self).commanded(old(self), now, *command),
    {
        match *command {
            Command::SelectInstrument(NoteTarget::Builtin(_)) => self.select(None, now),
            Command::SelectInstrument(NoteTarget::Slot(s)) => self.select(Some(s as usize), now),
            Command::NoteOn(note, velocity) => self.note_on(note, velocity, now),
            Command::NoteOff(note) => self.note_off(note, now),
            Command::AllNotesOff => self.all_notes_off(now),
            Command::SetSlotLive(i, on) => self.set_live(i as usize, on),
            Command::SetSlotGain(i, gain) => self.set_gain(i as usize, gain),
            _ => {},
        }
    }
}

impl Looper {
    /// A lane command.
    fn command_lane(&mut self, cx: &mut Cx, command: &Command) -> (answer: Applied)
        requires
            old(self).ready(*old(cx)),
        ensures
            final(self).ready(*final(cx)),
            final(cx).when(*old(cx)),
            final(self).same_tape(old(self)),
            final(self).control.deck.capacity == old(self).control.deck.capacity,
            answer == old(self).world(*old(cx)).lane_answer(*command),
            final(self).world(*final(cx)) == old(self).world(*old(cx)).lane_commanded(
                old(cx).now,
                old(cx).align,
                *command,
            ),
    {
        reveal(World::lane_commanded);
        match *command {
            Command::RecDub(i) => match lane(i) {
                Some(i) => self.rec_dub(cx, i),
                None => Applied::Done,
            },
            Command::PlayStop(i) => match lane(i) {
                Some(i) => self.play_stop(cx, i),
                None => Applied::Done,
            },
            Command::Stop(i) => match lane(i) {
                Some(i) => self.stop_command(cx, i),
                None => Applied::Done,
            },
            Command::Undo(i) => match lane(i) {
                Some(i) => self.undo(cx, i),
                None => Applied::Done,
            },
            Command::Reverse(i) => match lane(i) {
                Some(i) => self.reverse(cx, i),
                None => Applied::Done,
            },
            Command::Copy(i) => match lane(i) {
                Some(i) => self.copy(cx, i),
                None => Applied::Done,
            },
            Command::Clear(i) => match lane(i) {
                Some(i) => self.clear(cx, i),
                None => Applied::Done,
            },
            Command::PlayAll => self.play_all(cx),
            Command::StopAll => self.stop_all(cx),
            Command::ClearAll => self.clear_all(cx),
            _ => Applied::Done,
        }
    }

    /// A hands-free press on lane `i`.
    fn press_on(&mut self, cx: &mut Cx, i: usize, action: Action) -> (answer: Applied)
        requires
            i < TRACK_COUNT,
            old(self).ready(*old(cx)),
        ensures
            final(self).ready(*final(cx)),
            final(cx).when(*old(cx)),
            final(self).same_tape(old(self)),
            final(self).control.deck.capacity == old(self).control.deck.capacity,
            answer == old(self).world(*old(cx)).action_answer(old(cx).now, i as int, action),
            final(self).world(*final(cx)) == old(self).world(*old(cx)).pressed(
                old(cx).now,
                old(cx).align,
                i as int,
                action,
            ),
    {
        let before: usize = self.selected();
        let answer: Applied = self.action(cx, i, action);
        if self.selected() != before {
            let ghost w = self.world(*cx);
            cx.feed.push(Event::Selected { frame: cx.now, lane: self.selected() as u8 });
            proof {
                w.lemma_settings(self.world(*cx), cx.now);
            }
        }
        answer
    }

    fn command_press(&mut self, cx: &mut Cx, command: &Command) -> (answer: Applied)
        requires
            old(self).ready(*old(cx)),
        ensures
            final(self).ready(*final(cx)),
            final(cx).when(*old(cx)),
            final(self).same_tape(old(self)),
            final(self).control.deck.capacity == old(self).control.deck.capacity,
            answer == old(self).world(*old(cx)).press_answer(old(cx).now, *command),
            final(self).world(*final(cx)) == old(self).world(*old(cx)).press(old(cx).now, old(cx).align, *command),
    {
        match *command {
            Command::Action(action) => {
                let i: usize = self.selected();
                match self.press_on(cx, i, action) {
                    Applied::WaitUntil(at) => Applied::Held(at, Command::ActionOn(i as u8, action)),
                    answer => answer,
                }
            },
            Command::ActionOn(i, action) => match lane(i) {
                Some(i) => self.press_on(cx, i, action),
                None => Applied::Done,
            },
            _ => Applied::Done,
        }
    }

    /// A setting.
    fn command_set(&mut self, cx: &mut Cx, command: &Command)
        requires
            old(self).ready(*old(cx)),
            !command.is_lane(),
            !command.is_press(),
        ensures
            final(self).ready(*final(cx)),
            final(cx).when(*old(cx)),
            final(self).same_tape(old(self)),
            final(self).control.deck.capacity == old(self).control.deck.capacity,
            final(self).world(*final(cx)) == old(self).world(*old(cx)).set(old(cx).now, *command),
    {
        reveal(World::set);
        let ghost w = self.world(*cx);
        match *command {
            Command::SelectTrack(i) => {
                self.select(cx, i as usize);
                let ghost v = self.world(*cx);
                cx.feed.push(Event::Selected { frame: cx.now, lane: self.selected() as u8 });
                proof {
                    v.lemma_settings(self.world(*cx), cx.now);
                }
            },
            Command::SetBpm(_) | Command::SetMetronome(_) | Command::SetClickVolume(_) => {
                self.command_clock(cx, command);
            },
            Command::SetVolume(i, v) => {
                if let Some(i) = lane(i) {
                    self.set_volume(cx, i, v);
                }
            },
            Command::SetMute(i, on) => {
                if let Some(i) = lane(i) {
                    self.set_mute(cx, i, on);
                }
            },
            Command::SetFxParam(i, param, value) => {
                if lane(i).is_some() {
                    cx.fx.push(FxAction::Param { lane: i, param, value });
                    proof {
                        w.lemma_settings(self.world(*cx), cx.now);
                    }
                }
            },
            Command::SetFxBypass(i, kind, bypassed) => {
                if lane(i).is_some() {
                    cx.fx.push(FxAction::Bypass { lane: i, kind, bypassed });
                    proof {
                        w.lemma_settings(self.world(*cx), cx.now);
                    }
                }
            },
            _ => self.command_deck(cx, command),
        }
    }

    fn command_clock(&mut self, cx: &mut Cx, command: &Command)
        requires
            old(self).ready(*old(cx)),
            command is SetBpm || command is SetMetronome || command is SetClickVolume,
        ensures
            *final(self) == *old(self),
            final(self).ready(*final(cx)),
            final(cx).when(*old(cx)),
            final(self).world(*final(cx)) == old(self).world(*old(cx)).set(old(cx).now, *command),
    {
        reveal(World::set);
        let ghost w = self.world(*cx);
        match *command {
            Command::SetBpm(bpm) => cx.clock.set_bpm(bpm, cx.now),
            Command::SetMetronome(on) => cx.clock.set_metronome(on),
            Command::SetClickVolume(v) => cx.clock.set_click_volume(v),
            _ => {},
        }
        proof {
            w.lemma_settings(self.world(*cx), cx.now);
        }
    }

    fn command_deck(&mut self, cx: &Cx, command: &Command)
        requires
            old(self).ready(*cx),
        ensures
            final(self).ready(*cx),
            final(self).same_tape(old(self)),
            final(self).control.deck.capacity == old(self).control.deck.capacity,
            final(self).world(*cx) == (World { deck: old(self).world(*cx).deck_set(*command), ..old(self).world(*cx) }),
    {
        match *command {
            Command::SetLoopEndStop(on) => self.set_loop_end_stop(cx, on),
            Command::SetFixedLength(on) => self.set_fixed_length(cx, on),
            Command::SetFixedBars(bars) => self.set_fixed_bars(cx, bars),
            Command::SetRetake(on) => self.set_retake(cx, on),
            Command::SetAutoRecord(on) => self.set_auto_record(cx, on),
            Command::SetAutoSensitivity(s) => self.set_auto_sensitivity(cx, s),
            _ => {},
        }
    }

    /// Apply a command to the looper, the clock, the feed and the lanes' effects.
    pub fn command(&mut self, cx: &mut Cx, command: &Command) -> (answer: Applied)
        requires
            old(self).ready(*old(cx)),
        ensures
            final(self).ready(*final(cx)),
            final(cx).when(*old(cx)),
            final(self).same_tape(old(self)),
            final(self).control.deck.capacity == old(self).control.deck.capacity,
            answer == old(self).world(*old(cx)).command_answer(old(cx).now, *command),
            final(self).world(*final(cx)) == old(self).world(*old(cx)).commanded(
                old(cx).now,
                old(cx).align,
                *command,
            ),
    {
        match *command {
            Command::RecDub(_)
            | Command::PlayStop(_)
            | Command::Stop(_)
            | Command::Undo(_)
            | Command::Reverse(_)
            | Command::Copy(_)
            | Command::Clear(_)
            | Command::PlayAll
            | Command::StopAll
            | Command::ClearAll => self.command_lane(cx, command),
            Command::Action(_) | Command::ActionOn(..) => self.command_press(cx, command),
            _ => {
                self.command_set(cx, command);
                Applied::Done
            },
        }
    }
}

} // verus!
