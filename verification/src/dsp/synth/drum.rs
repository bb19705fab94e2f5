//! The drum kit: which pad a note hits, and what a hit asks of its voice. The pads are one-shots; a note
//! off does nothing.

use vstd::prelude::*;

use crate::dsp::rng;
use crate::dsp::rng::Mulberry32;
use crate::float::Double;

verus! {

/// The sixteen pads.
pub const PAD_COUNT: usize = 16;

/// The softest a hit is: 0.01, as a bit pattern.
pub const SOFTEST: u64 = 0x3f84_7ae1_47ae_147b;

/// What a pad sounds with.
#[derive(Clone, Copy, Debug, PartialEq, Eq, Structural)]
pub enum Drum {
    /// A membrane tuned to a note.
    Membrane { midi: u8 },
    /// White or pink noise, from a place of its table drawn at random.
    Noise { pink: bool },
    /// Metal at a frequency in hertz.
    Metal { hertz: u32 },
}

/// A pad: the note it answers, its sound, and the note value it lasts (the `value`th part of a whole note
/// at 120 beats a minute).
#[derive(Clone, Copy, Debug, PartialEq, Eq, Structural)]
pub struct Pad {
    pub note: u8,
    pub drum: Drum,
    pub value: u32,
}

/// A hit: the pad's place in the kit, the pad, how hard, and for noise the draw it starts from.
#[derive(Clone, Copy, Debug, PartialEq, Eq, Structural)]
pub struct Hit {
    pub place: usize,
    pub pad: Pad,
    pub velocity: Double,
    pub draw: Option<Double>,
}

/// The kit on its General MIDI notes.
pub open spec fn kit() -> Seq<Pad> {
    seq![
        Pad { note: 36, drum: Drum::Membrane { midi: 24 }, value: 8 },
        Pad { note: 35, drum: Drum::Membrane { midi: 21 }, value: 4 },
        Pad { note: 38, drum: Drum::Noise { pink: false }, value: 16 },
        Pad { note: 40, drum: Drum::Noise { pink: false }, value: 16 },
        Pad { note: 39, drum: Drum::Noise { pink: true }, value: 32 },
        Pad { note: 37, drum: Drum::Metal { hertz: 800 }, value: 64 },
        Pad { note: 42, drum: Drum::Metal { hertz: 400 }, value: 32 },
        Pad { note: 44, drum: Drum::Metal { hertz: 400 }, value: 64 },
        Pad { note: 46, drum: Drum::Metal { hertz: 400 }, value: 8 },
        Pad { note: 49, drum: Drum::Metal { hertz: 300 }, value: 2 },
        Pad { note: 51, drum: Drum::Metal { hertz: 500 }, value: 4 },
        Pad { note: 56, drum: Drum::Metal { hertz: 540 }, value: 16 },
        Pad { note: 54, drum: Drum::Metal { hertz: 1200 }, value: 32 },
        Pad { note: 45, drum: Drum::Membrane { midi: 31 }, value: 8 },
        Pad { note: 47, drum: Drum::Membrane { midi: 36 }, value: 8 },
        Pad { note: 50, drum: Drum::Membrane { midi: 41 }, value: 8 },
    ]
}

/// The place of the pad a note hits, or `None` for a note outside the kit.
pub open spec fn place_of(note: u8) -> Option<int> {
    if exists|i: int| 0 <= i < PAD_COUNT && (#[trigger] kit()[i]).note == note {
        Some(choose|i: int| 0 <= i < PAD_COUNT && (#[trigger] kit()[i]).note == note)
    } else {
        None
    }
}

/// No two pads answer one note.
pub proof fn law_a_note_hits_one_pad(i: int, j: int)
    requires
        0 <= i < PAD_COUNT,
        0 <= j < PAD_COUNT,
        kit()[i].note == kit()[j].note,
    ensures
        i == j,
        place_of(kit()[i].note) == Some(i),
{
    assert forall|k: int| 0 <= k < PAD_COUNT && (#[trigger] kit()[k]).note == kit()[i].note implies k == i by {
        if k != i {
            lemma_apart(k, i);
        }
    }
    if i != j {
        lemma_apart(i, j);
    }
}

proof fn lemma_apart(i: int, j: int)
    requires
        0 <= i < PAD_COUNT,
        0 <= j < PAD_COUNT,
        i != j,
    ensures
        kit()[i].note != kit()[j].note,
{
    assert(i == 0 || i == 1 || i == 2 || i == 3 || i == 4 || i == 5 || i == 6 || i == 7 || i == 8 || i == 9 || i == 10
        || i == 11 || i == 12 || i == 13 || i == 14 || i == 15);
    assert(j == 0 || j == 1 || j == 2 || j == 3 || j == 4 || j == 5 || j == 6 || j == 7 || j == 8 || j == 9 || j == 10
        || j == 11 || j == 12 || j == 13 || j == 14 || j == 15);
}

/// A velocity, no softer than the softest hit.
pub open spec fn struck(velocity: Double) -> Double {
    let floor = Double { bits: SOFTEST };
    if velocity.is_number() && velocity.rank() >= floor.rank() {
        velocity
    } else {
        floor
    }
}

/// The kit, the time each pad was last hit, and the random source its noise starts from.
pub struct DrumKit {
    pads: Vec<Pad>,
    last: Vec<Option<Double>>,
    rng: Mulberry32,
}

impl DrumKit {
    /// When each pad was last hit.
    pub closed spec fn hits(&self) -> Seq<Option<Double>> {
        self.last@
    }

    /// The random source's counter.
    pub closed spec fn counter(&self) -> u32 {
        self.rng.counter()
    }

    pub closed spec fn wf(&self) -> bool {
        &&& self.pads@ == kit()
        &&& self.last@.len() == PAD_COUNT
    }

    pub fn new(rng: Mulberry32) -> (k: DrumKit)
        ensures
            k.wf(),
            k.counter() == rng.counter(),
            k.hits() == Seq::new(PAD_COUNT as nat, |i: int| None::<Double>),
    {
        let pads = vec![
            Pad { note: 36, drum: Drum::Membrane { midi: 24 }, value: 8 },
            Pad { note: 35, drum: Drum::Membrane { midi: 21 }, value: 4 },
            Pad { note: 38, drum: Drum::Noise { pink: false }, value: 16 },
            Pad { note: 40, drum: Drum::Noise { pink: false }, value: 16 },
            Pad { note: 39, drum: Drum::Noise { pink: true }, value: 32 },
            Pad { note: 37, drum: Drum::Metal { hertz: 800 }, value: 64 },
            Pad { note: 42, drum: Drum::Metal { hertz: 400 }, value: 32 },
            Pad { note: 44, drum: Drum::Metal { hertz: 400 }, value: 64 },
            Pad { note: 46, drum: Drum::Metal { hertz: 400 }, value: 8 },
            Pad { note: 49, drum: Drum::Metal { hertz: 300 }, value: 2 },
            Pad { note: 51, drum: Drum::Metal { hertz: 500 }, value: 4 },
            Pad { note: 56, drum: Drum::Metal { hertz: 540 }, value: 16 },
            Pad { note: 54, drum: Drum::Metal { hertz: 1200 }, value: 32 },
            Pad { note: 45, drum: Drum::Membrane { midi: 31 }, value: 8 },
            Pad { note: 47, drum: Drum::Membrane { midi: 36 }, value: 8 },
            Pad { note: 50, drum: Drum::Membrane { midi: 41 }, value: 8 },
        ];
        assert(pads@ =~= kit());
        let mut last: Vec<Option<Double>> = Vec::new();
        let mut i: usize = 0;
        while i < PAD_COUNT
            invariant
                i <= PAD_COUNT,
                last@ == Seq::new(i as nat, |k: int| None::<Double>),
            decreases PAD_COUNT - i,
        {
            last.push(None);
            i = i + 1;
        }
        DrumKit { pads, last, rng }
    }

    /// The kit's notes, pad by pad.
    pub fn notes(&self) -> (notes: Vec<u8>)
        requires
            self.wf(),
        ensures
            notes@ == kit().map_values(|p: Pad| p.note),
    {
        let mut notes: Vec<u8> = Vec::new();
        let mut i: usize = 0;
        while i < PAD_COUNT
            invariant
                self.pads@ == kit(),
                kit().len() == PAD_COUNT,
                i <= PAD_COUNT,
                notes@ == kit().take(i as int).map_values(|p: Pad| p.note),
            decreases PAD_COUNT - i,
        {
            notes.push(self.pads[i].note);
            i = i + 1;
            assert(notes@ =~= kit().take(i as int).map_values(|p: Pad| p.note));
        }
        assert(kit().take(PAD_COUNT as int) =~= kit());
        notes
    }

    fn place(&self, note: u8) -> (place: Option<usize>)
        requires
            self.wf(),
        ensures
            place matches Some(i) ==> i < PAD_COUNT && kit()[i as int].note == note && place_of(note) == Some(i as int),
            place is None ==> place_of(note) is None,
    {
        let mut i: usize = 0;
        while i < PAD_COUNT
            invariant
                self.pads@ == kit(),
                kit().len() == PAD_COUNT,
                i <= PAD_COUNT,
                forall|k: int| 0 <= k < i ==> (#[trigger] kit()[k]).note != note,
            decreases PAD_COUNT - i,
        {
            if self.pads[i].note == note {
                proof {
                    law_a_note_hits_one_pad(i as int, i as int);
                }
                return Some(i);
            }
            i = i + 1;
        }
        None
    }

    /// When the pad a note hits was last hit.
    pub fn last_hit(&self, note: u8) -> (at: Option<Double>)
        requires
            self.wf(),
        ensures
            at == (match place_of(note) {
                Some(i) => self.hits()[i],
                None => None,
            }),
    {
        match self.place(note) {
            Some(i) => self.last[i],
            None => None,
        }
    }

    /// A note on at a time: the hit it is. A note outside the kit does nothing, nor does a second hit on a
    /// pad at the time of the one before; `same` says that the two times are one to the renderer.
    pub fn note_on(&mut self, note: u8, velocity: Double, at: Double, same: bool) -> (hit: Option<Hit>)
        requires
            old(self).wf(),
        ensures
            final(self).wf(),
            hit is None <==> place_of(note) is None || same && old(self).hits()[place_of(note)->0] is Some,
            hit is None ==> *final(self) == *old(self),
            hit matches Some(h) ==> {
                &&& place_of(note) == Some(h.place as int)
                &&& h.pad == kit()[h.place as int]
                &&& h.pad.note == note
                &&& h.velocity == struck(velocity)
                &&& final(self).hits() == old(self).hits().update(h.place as int, Some(at))
                &&& h.draw is Some <==> h.pad.drum is Noise
                &&& h.draw is None ==> final(self).counter() == old(self).counter()
                &&& h.draw matches Some(x) ==> final(self).counter() == old(self).counter().wrapping_add(rng::STRIDE)
                    && x.is_dyadic(rng::scrambled(final(self).counter()) as int, 32)
            },
    {
        match self.place(note) {
            None => None,
            Some(place) => {
                if same && self.last[place].is_some() {
                    return None;
                }
                self.last[place] = Some(at);
                let pad = self.pads[place];
                let floor = Double { bits: SOFTEST };
                let velocity = if velocity.at_least(floor) {
                    velocity
                } else {
                    floor
                };
                let draw: Option<Double> = match pad.drum {
                    Drum::Noise { .. } => Some(self.rng.next_f64()),
                    _ => None,
                };
                Some(Hit { place, pad, velocity, draw })
            },
        }
    }
}

} // verus!
