//! What crosses the real-time boundary: the commands the UI and MIDI send, the events the engine answers
//! with, the per-callback context, and what a plugin slot holds and hears. Commands and events travel
//! only over rings; a full event ring drops the event and counts it, nothing blocks.

use vstd::prelude::*;

use crate::dsp::fx::{FxKind, FxParam};
use crate::float::{Double, Single};
use crate::grid::Frame;

verus! {

pub const TRACK_COUNT: usize = 5;

/// The plugin slots: two instrument slots.
pub const SLOT_COUNT: usize = 2;

/// Equal texts.
pub fn same_text(a: &str, b: &str) -> (r: bool)
    ensures
        r == (a@ == b@),
{
    a.to_owned() == b.to_owned()
}

/// A command, applied at `frame` (a device frame, e.g. a MIDI pedal's press) or, with `None`, at the
/// start of the next block the engine renders.
#[derive(Clone, Copy, Debug, PartialEq, Eq, Structural)]
pub struct TimedCommand {
    pub frame: Option<Frame>,
    pub command: Command,
}

#[derive(Clone, Copy, Debug, PartialEq, Eq, Structural)]
pub enum Command {
    /// The lane's REC/DUB core: record, commit, overdub, commit the layer.
    RecDub(u8),
    /// The lane's PLAY/STOP: commit and stop a capture, stop (or stop at the loop end), resume.
    PlayStop(u8),
    /// Abort: a count-in, an armed take, AUTO listening or an uncommitted take go back to EMPTY, an
    /// overdub layer is discarded, a playing lane stops now.
    Stop(u8),
    /// One-level UNDO/REDO of the lane's last overdub.
    Undo(u8),
    Reverse(u8),
    /// Copy the lane into the first EMPTY lane (answered by [`Event::Copied`]).
    Copy(u8),
    /// Clear the lane (the on-screen control confirms first).
    Clear(u8),
    PlayAll,
    StopAll,
    ClearAll,
    /// A hands-free press on the selected lane: gated, and refused with a reason (keys, pedals).
    Action(Action),
    /// A hands-free press bound to its lane: what a press held for a block job re-enters as, so a
    /// selection change meanwhile cannot move it.
    ActionOn(u8, Action),
    SelectTrack(u8),
    SetBpm(Double),
    SetMetronome(bool),
    SetClickVolume(Single),
    /// The master output level (0..1) and its mute.
    SetMasterVolume(Single),
    SetMasterMute(bool),
    SetLoopEndStop(bool),
    SetFixedLength(bool),
    SetFixedBars(Double),
    SetRetake(bool),
    SetAutoRecord(bool),
    SetAutoSensitivity(Double),
    SetVolume(u8, Single),
    SetMute(u8, bool),
    /// A lane's FX parameter, in its definition's units.
    SetFxParam(u8, FxParam, Double),
    SetFxBypass(u8, FxKind, bool),
    /// Where the notes go: a built-in instrument or a plugin slot. Sent on a slot switch, not per note:
    /// it releases the held notes (of the instrument or slot it leaves) and hands a built-in instrument
    /// the wheels, even when the target stays.
    SelectInstrument(NoteTarget),
    /// A note (0..127) on the selected target; velocity 0..1. Sustain and the owner of a held note stay
    /// with the sender. The instrument commands never wait behind a looper command that waits for a
    /// block job.
    NoteOn(u8, Single),
    NoteOff(u8),
    /// The pitch wheel, in semitones (built-in instruments only).
    PitchBend(Double),
    /// The mod wheel, 0..1 (built-in instruments only).
    Modulation(Double),
    AllNotesOff,
    /// GO LIVE: the device input feeds the slot (an empty slot, or one holding an effect, passes it on
    /// as the wet signal; an instrument plugin takes no input). Off, the slot gets silence.
    SetSlotLive(u8, bool),
    /// The slot's output level (linear, 0..), on both what is heard and what is recorded.
    SetSlotGain(u8, Single),
    /// An input send on or off.
    SetInputSend(InputSend, bool),
    SetInputSendParam(InputSendParam, Double),
}

impl Command {
    pub open spec fn for_instruments(self) -> bool {
        self is SelectInstrument || self is NoteOn || self is NoteOff || self is PitchBend || self is Modulation
            || self is AllNotesOff
    }

    /// A command for the built-in instruments (notes, wheels, the pick).
    pub fn is_instrument(&self) -> (r: bool)
        ensures
            r == self.for_instruments(),
    {
        matches!(
            self,
            Command::SelectInstrument(_)
                | Command::NoteOn(..)
                | Command::NoteOff(_)
                | Command::PitchBend(_)
                | Command::Modulation(_)
                | Command::AllNotesOff
        )
    }

    pub open spec fn for_slots(self) -> bool {
        self is SelectInstrument || self is NoteOn || self is NoteOff || self is AllNotesOff || self is SetSlotLive
            || self is SetSlotGain
    }

    /// A command a plugin slot hears: the note target, the notes, and the slot's live flag and gain.
    /// Like the instrument commands it never waits behind the looper, and the engine renders the slots
    /// up to its frame before applying it.
    pub fn reaches_slots(&self) -> (r: bool)
        ensures
            r == self.for_slots(),
    {
        matches!(
            self,
            Command::SelectInstrument(_)
                | Command::NoteOn(..)
                | Command::NoteOff(_)
                | Command::AllNotesOff
                | Command::SetSlotLive(..)
                | Command::SetSlotGain(..)
        )
    }

    pub open spec fn for_sends(self) -> bool {
        self is SetInputSend || self is SetInputSendParam
    }

    /// A command for the input sends.
    pub fn is_input_send(&self) -> (r: bool)
        ensures
            r == self.for_sends(),
    {
        matches!(self, Command::SetInputSend(..) | Command::SetInputSendParam(..))
    }

    /// A command that touches nothing a block job moves: it never waits behind the looper.
    pub open spec fn never_waits(self) -> bool {
        self.for_instruments() || self.for_slots() || self.for_sends()
    }
}

/// Where the notes go: the active slot's synth, or its plugin.
#[derive(Clone, Copy, Debug, PartialEq, Eq, Structural)]
pub enum NoteTarget {
    Builtin(Instrument),
    /// The plugin in this slot (0..SLOT_COUNT).
    Slot(u8),
}

/// The two input sends.
#[derive(Clone, Copy, Debug, PartialEq, Eq, Structural)]
pub enum InputSend {
    Echo,
    Reverb,
}

#[derive(Clone, Copy, Debug, PartialEq, Eq, Structural)]
pub enum InputSendParam {
    EchoTime,
    EchoFeedback,
    EchoLevel,
    ReverbLevel,
}

/// The six built-in instruments.
#[derive(Clone, Copy, Debug, PartialEq, Eq, Structural)]
pub enum Instrument {
    Lead,
    Pad,
    Piano,
    Organ,
    Bass,
    Drums,
}

impl Instrument {
    pub open spec fn name(self) -> Seq<char> {
        match self {
            Instrument::Lead => "lead"@,
            Instrument::Pad => "pad"@,
            Instrument::Piano => "piano"@,
            Instrument::Organ => "organ"@,
            Instrument::Bass => "bass"@,
            Instrument::Drums => "drum"@,
        }
    }

    /// The instrument of an id the UI and the session file use.
    pub fn from_id(id: &str) -> (r: Option<Instrument>)
        ensures
            r matches Some(i) ==> i.name() == id@,
            r is None ==> forall|i: Instrument| #[trigger] i.name() != id@,
    {
        if same_text(id, "lead") {
            Some(Instrument::Lead)
        } else if same_text(id, "pad") {
            Some(Instrument::Pad)
        } else if same_text(id, "piano") {
            Some(Instrument::Piano)
        } else if same_text(id, "organ") {
            Some(Instrument::Organ)
        } else if same_text(id, "bass") {
            Some(Instrument::Bass)
        } else if same_text(id, "drum") {
            Some(Instrument::Drums)
        } else {
            None
        }
    }

    /// The id the UI and the session file use.
    pub fn id(self) -> (id: &'static str)
        ensures
            id@ == self.name(),
    {
        match self {
            Instrument::Lead => "lead",
            Instrument::Pad => "pad",
            Instrument::Piano => "piano",
            Instrument::Organ => "organ",
            Instrument::Bass => "bass",
            Instrument::Drums => "drum",
        }
    }

    /// No two instruments share an id, so an id names its instrument again.
    pub proof fn law_an_id_names_one_instrument(a: Instrument, b: Instrument)
        requires
            a.name() == b.name(),
        ensures
            a == b,
    {
        reveal_strlit("lead");
        reveal_strlit("pad");
        reveal_strlit("piano");
        reveal_strlit("organ");
        reveal_strlit("bass");
        reveal_strlit("drum");
        assert("lead"@[0] == 'l' && "pad"@.len() == 3 && "piano"@.len() == 5 && "organ"@[0] == 'o');
        assert("bass"@[0] == 'b' && "drum"@[0] == 'd' && "lead"@.len() == 4);
        assert("pad"@[0] == 'p' && "piano"@[0] == 'p');
    }
}

/// The named hands-free actions.
#[derive(Clone, Copy, Debug, PartialEq, Eq, Structural)]
pub enum Action {
    RecDub,
    PlayStop,
    Undo,
    /// CLEAR on a pedal: the first press arms, the very next looper press on the same lane inside the
    /// confirm window clears.
    Clear,
    NextTrack,
    PrevTrack,
    PlayAll,
    StopAll,
}

#[derive(Clone, Copy, Debug, PartialEq, Eq, Structural)]
pub enum LaneState {
    Empty,
    Recording,
    Overdubbing,
    Playing,
    Stopped,
}

/// What the UI shows for a lane.
#[derive(Clone, Copy, Debug, PartialEq, Eq, Structural)]
pub struct LaneInfo {
    pub state: LaneState,
    /// The committed loop length, 0 before a commit.
    pub length: Frame,
    /// RECORDING but waiting for the counted downbeat or the master boundary.
    pub armed: bool,
    /// First-track AUTO REC listening for an onset.
    pub auto_armed: bool,
    pub can_undo: bool,
    pub can_reverse: bool,
    pub reversed: bool,
    /// A pending loop-end stop.
    pub stop_at: Option<Frame>,
    /// RETAKE: the 1-based pass in flight, 0 when the lane is not rolling.
    pub retake_pass: u32,
}

/// Why a hands-free press did nothing.
#[derive(Clone, Copy, Debug, PartialEq, Eq, Structural)]
pub enum Refusal {
    Stopping,
    PlayFirst,
    Reversed,
    OtherRecording,
    Empty,
    NoUndo,
    NoClear,
    /// The first CLEAR press: press again to clear.
    ConfirmClear,
}

impl Refusal {
    /// What the player reads.
    pub open spec fn message(self) -> Seq<char> {
        match self {
            Refusal::Stopping => "stopping at loop end, wait or stop now"@,
            Refusal::PlayFirst => "play first to overdub"@,
            Refusal::Reversed => "overdub unavailable while reversed, switch to forward first"@,
            Refusal::OtherRecording => "another track is recording, stop it first"@,
            Refusal::Empty => "nothing to play, record first"@,
            Refusal::NoUndo => "nothing to undo, overdub first"@,
            Refusal::NoClear => "nothing to clear"@,
            Refusal::ConfirmClear => "press again to clear"@,
        }
    }

    pub fn text(self) -> (text: &'static str)
        ensures
            text@ == self.message(),
    {
        match self {
            Refusal::Stopping => "stopping at loop end, wait or stop now",
            Refusal::PlayFirst => "play first to overdub",
            Refusal::Reversed => "overdub unavailable while reversed, switch to forward first",
            Refusal::OtherRecording => "another track is recording, stop it first",
            Refusal::Empty => "nothing to play, record first",
            Refusal::NoUndo => "nothing to undo, overdub first",
            Refusal::NoClear => "nothing to clear",
            Refusal::ConfirmClear => "press again to clear",
        }
    }
}

#[derive(Clone, Copy, Debug, PartialEq, Eq, Structural)]
pub enum Event {
    Lane { frame: Frame, lane: u8, info: LaneInfo },
    /// The master loop length (0 = none), the tempo and its lock.
    Transport { frame: Frame, master: Frame, bpm: u32, locked: bool },
    /// A beat of the pulse: the beat LED, the count-in numeral, and whether it clicked.
    Beat { frame: Frame, beat_in_bar: u8, count_left: u8, clicked: bool },
    Selected { frame: Frame, lane: u8 },
    Refused { frame: Frame, lane: u8, reason: Refusal },
    /// A take or overdub layer whose window saw an input gap was discarded.
    TakeRejected { frame: Frame, lane: u8, overdub: bool },
    /// A RETAKE pass saw an input gap: it is dropped, and the kept pass before it with it.
    PassDropped { frame: Frame, lane: u8, pass: u32 },
    Copied { frame: Frame, from: u8, to: u8 },
}

/// The callback's view of the device.
#[derive(Clone, Copy, Debug, PartialEq, Eq, Structural)]
pub struct ProcessContext {
    /// Device frame of the block's first sample.
    pub frame: Frame,
    /// The device lost audio just before this block (an xrun): its first frame follows a gap.
    pub xrun: bool,
    /// Input plus output latency the driver reports, in frames. A take starts this much (plus the
    /// plugin's latency and the master limiter's pre-delay) after its downbeat, so what the player heard
    /// and played lines up on the grid. A constant, not a user trim.
    pub align_frames: Frame,
    /// Of `align_frames`, the input side. A built-in instrument's note is played the output latency
    /// after the click the player heard, so its record path lags it by this (plus the plugin's latency,
    /// less the note's lead) to reach the grid where the guitar does.
    pub input_frames: Frame,
}

/// What a plugin slot holds, fixed when it is installed.
#[derive(Clone, Copy, Debug, PartialEq, Eq, Structural)]
pub enum SlotKind {
    /// Has an audio input: takes the device input while the slot is live; its output is the wet signal
    /// (heard after the limiter, recorded at the take's alignment). Bypassed, it passes its input dry.
    Effect,
    /// No audio input: plays the notes while it is the note target; its output joins the master bus
    /// and is recorded where a built-in instrument's is. Bypassed, it is silent.
    Instrument,
}

/// A note for a plugin slot, `offset` frames into the render call that carries it.
#[derive(Clone, Copy, Debug, PartialEq, Eq, Structural)]
pub struct SlotEvent {
    pub offset: u32,
    pub kind: SlotEventKind,
}

#[derive(Clone, Copy, Debug, PartialEq, Eq, Structural)]
pub enum SlotEventKind {
    /// Velocity 0..1.
    NoteOn { key: u8, velocity: Single },
    NoteOff { key: u8 },
}

/// A plugin unit the host has built: what the engine knows it by. The processor itself stays with the
/// host, under `id`.
#[derive(Clone, Copy, Debug, PartialEq, Eq, Structural)]
pub struct Unit {
    pub id: u64,
    pub kind: SlotKind,
    /// Frames its output lags its input.
    pub latency: Frame,
}

} // verus!
