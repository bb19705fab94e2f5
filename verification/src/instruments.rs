//! The six built-in instruments: which one plays, the performance wheels, which voice takes a note, and
//! the instruments' record path.
//!
//! Notes go to the selected instrument; a switch releases the held notes and hands the new instrument the
//! wheels. A note is scheduled one render quantum after the frame it is applied on and sounds exactly
//! there; the record path takes that lead off its delay.

use vstd::prelude::*;

use crate::api::Instrument;
use crate::dsp::line;
use crate::dsp::line::Line;
use crate::dsp::synth::bass::{HeldNotes, Release};
use crate::dsp::synth::poly::{Entry, PolyKind, VoicePool};
use crate::float;
use crate::float::{Double, Single, SINGLE_ONE};
use crate::grid;
use crate::grid::Frame;

verus! {

/// Frames between a note on or off being applied and sounding: one render quantum.
pub const LEAD: Frame = 128;

/// The highest note there is.
pub const TOP_NOTE: u8 = 127;

/// A modulation wheel full up: 1.0, as a bit pattern.
pub const FULL_WHEEL: u64 = 0x3ff0_0000_0000_0000;

/// What a note on asks of the renderer.
#[derive(Clone, Copy, Debug, PartialEq, Eq, Structural)]
pub enum Play {
    Nothing,
    /// A voice of a poly synth attacks.
    Poly(PolyKind, usize),
    Bass,
    Drums,
}

/// What a note off asks of the renderer.
#[derive(Clone, Copy, Debug, PartialEq, Eq, Structural)]
pub enum LetGo {
    Nothing,
    /// A voice of a poly synth releases.
    Poly(PolyKind, usize),
    Bass(Release),
}

/// The poly synth an instrument is, if it is one.
pub open spec fn poly_of(instrument: Instrument) -> Option<PolyKind> {
    match instrument {
        Instrument::Lead => Some(PolyKind::Lead),
        Instrument::Pad => Some(PolyKind::Pad),
        Instrument::Piano => Some(PolyKind::Piano),
        Instrument::Organ => Some(PolyKind::Organ),
        _ => None,
    }
}

/// A poly synth's place.
pub open spec fn place_of(kind: PolyKind) -> int {
    match kind {
        PolyKind::Lead => 0,
        PolyKind::Pad => 1,
        PolyKind::Piano => 2,
        PolyKind::Organ => 3,
    }
}

fn poly(instrument: Instrument) -> (kind: Option<PolyKind>)
    ensures
        kind == poly_of(instrument),
{
    match instrument {
        Instrument::Lead => Some(PolyKind::Lead),
        Instrument::Pad => Some(PolyKind::Pad),
        Instrument::Piano => Some(PolyKind::Piano),
        Instrument::Organ => Some(PolyKind::Organ),
        _ => None,
    }
}

fn place(kind: PolyKind) -> (i: usize)
    ensures
        i == place_of(kind),
        i < 4,
{
    match kind {
        PolyKind::Lead => 0,
        PolyKind::Pad => 1,
        PolyKind::Piano => 2,
        PolyKind::Organ => 3,
    }
}

pub struct Instruments {
    pub pools: Vec<VoicePool>,
    pub bass: HeldNotes,
    pub selected: Option<Instrument>,
    pub bend: Double,
    pub modulation: Double,
    /// The record path: the instruments' mono sum.
    pub line: Line,
    /// Device frames the sound clock is behind.
    pub offset: Frame,
}

impl Instruments {
    pub open spec fn wf(&self) -> bool {
        &&& self.pools@.len() == 4
        &&& forall|i: int| 0 <= i < 4 ==> (#[trigger] self.pools@[i]).wf()
        &&& self.bass.wf()
        &&& self.line.wf()
        &&& self.line@.len() > 0
    }

    /// The same but for its notes.
    pub open spec fn same_path(&self, before: &Instruments) -> bool {
        &&& self.bend == before.bend
        &&& self.modulation == before.modulation
        &&& self.line == before.line
        &&& self.offset == before.offset
    }

    /// All six, none selected, the wheels at rest, the record path silent: `line_frames` long.
    pub fn new(line_frames: usize) -> (s: Self)
        requires
            line_frames > 0,
        ensures
            s.wf(),
            s.selected is None,
            s.bend.bits == 0,
            s.modulation.bits == 0,
            s.offset == 0,
            s.line@ == Seq::new(line_frames as nat, |k: int| float::silence()),
            s.bass.held() == Seq::<(u8, Double)>::empty(),
            forall|kind: PolyKind| #[trigger]
                place_of(kind) >= 0 ==> s.pools@[place_of(kind)]@ == Seq::new(
                    kind.polyphony() as nat,
                    |i: int| Entry { note: None, order: 0 },
                ),
    {
        let mut pools: Vec<VoicePool> = Vec::new();
        pools.push(VoicePool::new(PolyKind::Lead.max_polyphony()));
        pools.push(VoicePool::new(PolyKind::Pad.max_polyphony()));
        pools.push(VoicePool::new(PolyKind::Piano.max_polyphony()));
        pools.push(VoicePool::new(PolyKind::Organ.max_polyphony()));
        Instruments {
            pools,
            bass: HeldNotes::new(),
            selected: None,
            bend: Double { bits: 0 },
            modulation: Double { bits: 0 },
            line: Line::new(line_frames),
            offset: 0,
        }
    }

    /// A device frame on the sound clock.
    pub open spec fn clock(&self, frame: Frame) -> int {
        frame - self.offset
    }

    /// The frame a note applied on `frame` sounds on, on the sound clock.
    pub fn ahead(&self, frame: Frame) -> (at: u64)
        requires
            grid::near(frame as int),
            grid::near(self.offset as int),
            self.offset <= frame,
        ensures
            at == self.clock(frame) + LEAD,
    {
        (frame - self.offset + LEAD) as u64
    }

    /// A note on for the selected instrument: what plays it. There is no note above the top one.
    pub fn note_on(&mut self, note: u8, velocity: Double) -> (play: Play)
        requires
            old(self).wf(),
            forall|i: int| 0 <= i < 4 ==> (#[trigger] old(self).pools@[i]).attacks() < u64::MAX,
        ensures
            final(self).wf(),
            final(self).same_path(old(self)),
            final(self).selected == old(self).selected,
            note > TOP_NOTE || old(self).selected is None ==> play == Play::Nothing && *final(self) == *old(self),
            note <= TOP_NOTE && old(self).selected is Some ==> match old(self).selected->0 {
                Instrument::Drums => play == Play::Drums && *final(self) == *old(self),
                Instrument::Bass => {
                    &&& play == Play::Bass
                    &&& final(self).bass.sound() == Some(note)
                    &&& final(self).bass.held() == crate::dsp::synth::bass::without(
                        old(self).bass.held(),
                        note,
                    ).push((note, velocity))
                    &&& final(self).pools == old(self).pools
                },
                i => {
                    let kind = poly_of(i)->0;
                    let k = place_of(kind);
                    &&& play matches Play::Poly(got, voice)
                    &&& got == kind
                    &&& crate::dsp::synth::poly::chosen(old(self).pools@[k]@, note, voice as int)
                    &&& final(self).pools@[k]@ == old(self).pools@[k]@.update(
                        voice as int,
                        Entry { note: Some(note), order: final(self).pools@[k].attacks() as u64 },
                    )
                    &&& final(self).pools@[k].attacks() == old(self).pools@[k].attacks() + 1
                    &&& final(self).pools@ == old(self).pools@.update(k, final(self).pools@[k])
                    &&& final(self).bass == old(self).bass
                },
            },
    {
        if note > TOP_NOTE {
            return Play::Nothing;
        }
        match self.selected {
            None => Play::Nothing,
            Some(Instrument::Drums) => Play::Drums,
            Some(Instrument::Bass) => {
                self.bass.note_on(note, velocity);
                Play::Bass
            },
            Some(i) => match poly(i) {
                None => Play::Nothing,
                Some(kind) => {
                    let k: usize = place(kind);
                    let voice: usize = self.pools[k].note_on(note);
                    assert(self.pools@ =~= old(self).pools@.update(k as int, self.pools@[k as int]));
                    Play::Poly(kind, voice)
                },
            },
        }
    }

    /// A note off for the selected instrument: what lets go. The drums ring out by themselves.
    pub fn note_off(&mut self, note: u8) -> (asked: LetGo)
        requires
            old(self).wf(),
        ensures
            final(self).wf(),
            final(self).same_path(old(self)),
            final(self).selected == old(self).selected,
            note > TOP_NOTE || old(self).selected is None || old(self).selected == Some(Instrument::Drums)
                ==> asked == LetGo::Nothing && *final(self) == *old(self),
            note <= TOP_NOTE && old(self).selected == Some(Instrument::Bass) ==> {
                &&& final(self).pools == old(self).pools
                &&& final(self).bass.held() == crate::dsp::synth::bass::without(old(self).bass.held(), note)
                &&& asked == LetGo::Bass(
                    if old(self).bass.sound() != Some(note) {
                        Release::Nothing
                    } else if final(self).bass.held().len() == 0 {
                        Release::Silence
                    } else {
                        Release::Attack(final(self).bass.held().last().0, final(self).bass.held().last().1)
                    },
                )
            },
            note <= TOP_NOTE && old(self).selected is Some && poly_of(old(self).selected->0) is Some ==> {
                let kind = poly_of(old(self).selected->0)->0;
                let k = place_of(kind);
                let before = old(self).pools@[k]@;
                &&& final(self).bass == old(self).bass
                &&& final(self).pools@ == old(self).pools@.update(k, final(self).pools@[k])
                &&& final(self).pools@[k].attacks() == old(self).pools@[k].attacks()
                &&& match asked {
                    LetGo::Poly(got, voice) => {
                        &&& got == kind
                        &&& voice < before.len()
                        &&& before[voice as int].note == Some(note)
                        &&& final(self).pools@[k]@ == before.update(
                            voice as int,
                            Entry { note: None, ..before[voice as int] },
                        )
                    },
                    LetGo::Nothing => {
                        &&& final(self).pools@[k]@ == before
                        &&& forall|j: int| 0 <= j < before.len() ==> (#[trigger] before[j]).note != Some(note)
                    },
                    _ => false,
                }
            },
    {
        if note > TOP_NOTE {
            return LetGo::Nothing;
        }
        match self.selected {
            None => LetGo::Nothing,
            Some(Instrument::Drums) => LetGo::Nothing,
            Some(Instrument::Bass) => LetGo::Bass(self.bass.note_off(note)),
            Some(i) => match poly(i) {
                None => LetGo::Nothing,
                Some(kind) => {
                    let k: usize = place(kind);
                    let voice: Option<usize> = self.pools[k].note_off(note);
                    assert(self.pools@ =~= old(self).pools@.update(k as int, self.pools@[k as int]));
                    match voice {
                        Some(v) => LetGo::Poly(kind, v),
                        None => LetGo::Nothing,
                    }
                },
            },
        }
    }

    /// The selected instrument holds no note any more, the others are as they were.
    pub open spec fn released(&self, before: &Instruments) -> bool {
        &&& self.same_path(before)
        &&& match before.selected {
            None => self.pools == before.pools && self.bass == before.bass,
            Some(Instrument::Drums) => self.pools == before.pools && self.bass == before.bass,
            Some(Instrument::Bass) => self.pools == before.pools && self.bass.held().len() == 0,
            Some(i) => {
                let k = place_of(poly_of(i)->0);
                &&& self.bass == before.bass
                &&& self.pools@ == before.pools@.update(k, self.pools@[k])
                &&& self.pools@[k]@ == before.pools@[k]@.map_values(|e: Entry| Entry { note: None, ..e })
                &&& self.pools@[k].attacks() == before.pools@[k].attacks()
            },
        }
    }

    /// Every note of the selected instrument off.
    pub fn all_notes_off(&mut self)
        requires
            old(self).wf(),
        ensures
            final(self).wf(),
            final(self).selected == old(self).selected,
            final(self).released(old(self)),
    {
        match self.selected {
            None => {},
            Some(Instrument::Drums) => {},
            Some(Instrument::Bass) => self.bass.all_notes_off(),
            Some(i) => {
                if let Some(kind) = poly(i) {
                    let k: usize = place(kind);
                    self.pools[k].all_notes_off();
                    assert(self.pools@ =~= old(self).pools@.update(k as int, self.pools@[k as int]));
                }
            },
        }
    }

    /// Another instrument (or the same) takes the notes: the held ones are let go first. The wheels stay
    /// where they are, and are the new instrument's.
    pub fn select(&mut self, instrument: Option<Instrument>)
        requires
            old(self).wf(),
        ensures
            final(self).wf(),
            final(self).selected == instrument,
            final(self).released(old(self)),
    {
        self.all_notes_off();
        self.selected = instrument;
    }

    /// The pitch wheel, in semitones; what is no finite number does nothing.
    pub fn set_pitch_bend(&mut self, semitones: Double) -> (moved: bool)
        ensures
            moved == semitones.finite(),
            *final(self) == (Instruments {
                bend: if semitones.finite() {
                    semitones
                } else {
                    old(self).bend
                },
                ..*old(self)
            }),
    {
        if semitones.is_finite() {
            self.bend = semitones;
            true
        } else {
            false
        }
    }

    /// The modulation wheel, held in `[0, 1]`; what is no finite number does nothing.
    pub fn set_modulation(&mut self, depth: Double) -> (moved: bool)
        ensures
            moved == depth.finite(),
            *final(self) == (Instruments {
                modulation: if depth.finite() {
                    depth.held(Double { bits: 0 }, Double { bits: FULL_WHEEL })
                } else {
                    old(self).modulation
                },
                ..*old(self)
            }),
    {
        if depth.is_finite() {
            self.modulation = depth.hold(Double { bits: 0 }, Double { bits: FULL_WHEEL });
            true
        } else {
            false
        }
    }

    /// How many frames late the record path is: `delay` less the lead a note has already, as far as the
    /// line reaches.
    pub open spec fn late(&self, delay: Frame) -> int {
        if delay <= LEAD {
            0
        } else {
            grid::min_int(delay - LEAD, self.line@.len() - 1)
        }
    }

    /// One frame of the record path: the instruments' sum in, and out what came in `late` frames ago.
    pub fn record(&mut self, delay: Frame, mono: Single) -> (out: Single)
        requires
            old(self).wf(),
        ensures
            final(self).wf(),
            *final(self) == (Instruments { line: final(self).line, ..*old(self) }),
            final(self).line@ == line::fed(old(self).line@, seq![mono]),
            out == final(self).line@[final(self).line@.len() - 1 - old(self).late(delay)],
            old(self).late(delay) == 0 ==> out == mono,
    {
        let n: usize = self.line.len();
        let past: Frame = if delay <= LEAD {
            0
        } else {
            delay - LEAD
        };
        let late: usize = if past as u64 >= n as u64 {
            n - 1
        } else {
            past as usize
        };
        self.line.shift(mono);
        assert(self.line@ =~= line::fed(old(self).line@, seq![mono]));
        self.line.before(late)
    }
}

/// The velocity a note is played with: held in `[0, 1]`, 0 for what is no finite number.
pub fn velocity(v: Single) -> (r: Single)
    ensures
        r == v.level(SINGLE_ONE),
{
    v.to_level(SINGLE_ONE)
}

/// The six instruments are four poly synths of their own, each in its place, the bass and the drums.
pub proof fn law_each_instrument_has_its_synth(a: Instrument, b: Instrument)
    ensures
        poly_of(a) is None <==> a == Instrument::Bass || a == Instrument::Drums,
        poly_of(a) is Some && poly_of(a) == poly_of(b) ==> a == b,
        poly_of(a) is Some && poly_of(b) is Some && place_of(poly_of(a)->0) == place_of(poly_of(b)->0) ==> a == b,
        poly_of(a) is Some ==> 0 <= place_of(poly_of(a)->0) < 4,
{
}

/// What is recorded of an instrument comes as late as asked for: the lead a note has and the line's delay make up the
/// whole, as far as the line reaches.
pub proof fn law_an_instrument_is_recorded_as_late_as_asked(s: &Instruments, delay: Frame)
    requires
        s.line@.len() > 0,
    ensures
        delay <= 128 ==> s.late(delay) == 0,
        128 <= delay < 128 + s.line@.len() ==> 128 + s.late(delay) == delay,
        128 + s.line@.len() <= delay ==> s.late(delay) == s.line@.len() - 1,
{
}

/// A release leaves no note of the selected instrument held, and no other instrument's touched.
pub proof fn law_a_release_lets_every_note_go(before: &Instruments, after: &Instruments, k: int, v: int)
    requires
        before.wf(),
        after.released(before),
        0 <= k < 4,
        0 <= v < before.pools@[k]@.len(),
    ensures
        before.selected == Some(Instrument::Bass) ==> after.bass.held().len() == 0,
        before.selected != Some(Instrument::Bass) ==> after.bass == before.bass,
        before.selected is Some && poly_of(before.selected->0) is Some && k == place_of(poly_of(before.selected->0)->0)
            ==> after.pools@[k]@[v].note is None,
        !(before.selected is Some && poly_of(before.selected->0) is Some && k == place_of(
            poly_of(before.selected->0)->0,
        )) ==> after.pools@[k] == before.pools@[k],
        after.bend == before.bend,
        after.modulation == before.modulation,
{
}

} // verus!
