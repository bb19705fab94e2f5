//! The poly synths: a fixed pool of voices, and which voice plays a note.

use vstd::prelude::*;

use crate::api::same_text;

verus! {

/// The four built-in poly voices.
#[derive(Clone, Copy, Debug, PartialEq, Eq, Structural)]
pub enum PolyKind {
    Lead,
    Pad,
    Piano,
    Organ,
}

impl PolyKind {
    pub open spec fn name(self) -> Seq<char> {
        match self {
            PolyKind::Lead => "lead"@,
            PolyKind::Pad => "pad"@,
            PolyKind::Piano => "piano"@,
            PolyKind::Organ => "organ"@,
        }
    }

    /// The kind an id names, if any.
    pub fn from_id(id: &str) -> (kind: Option<PolyKind>)
        ensures
            kind matches Some(k) ==> k.name() == id@,
            kind is None ==> forall|k: PolyKind| #[trigger] k.name() != id@,
    {
        if same_text(id, "lead") {
            Some(PolyKind::Lead)
        } else if same_text(id, "pad") {
            Some(PolyKind::Pad)
        } else if same_text(id, "piano") {
            Some(PolyKind::Piano)
        } else if same_text(id, "organ") {
            Some(PolyKind::Organ)
        } else {
            None
        }
    }

    /// An id names one kind.
    pub proof fn law_an_id_names_one_kind(a: PolyKind, b: PolyKind)
        ensures
            a.name() == b.name() ==> a == b,
    {
        reveal_strlit("lead");
        reveal_strlit("pad");
        reveal_strlit("piano");
        reveal_strlit("organ");
        if a != b {
            assert(a.name().len() != b.name().len() || a.name()[0] != b.name()[0]);
        }
    }

    pub open spec fn polyphony(self) -> int {
        match self {
            PolyKind::Lead | PolyKind::Organ => 8,
            PolyKind::Pad | PolyKind::Piano => 12,
        }
    }

    /// How many notes can sound at once.
    pub fn max_polyphony(self) -> (n: usize)
        ensures
            n == self.polyphony(),
            n > 0,
    {
        match self {
            PolyKind::Lead | PolyKind::Organ => 8,
            PolyKind::Pad | PolyKind::Piano => 12,
        }
    }
}

/// A voice: the note it holds, and when it last attacked (a count of attacks; 0 for never).
#[derive(Clone, Copy, Debug, PartialEq, Eq, Structural)]
pub struct Entry {
    pub note: Option<u8>,
    pub order: u64,
}

/// The voices of a poly synth, and how often they attacked.
pub struct VoicePool {
    voices: Vec<Entry>,
    serial: u64,
}

/// Voice `i` is the one a note goes to: the one that holds the note, else the released one that attacked
/// longest ago, else the held one that did; the first of those that attacked together.
pub open spec fn chosen(voices: Seq<Entry>, note: u8, i: int) -> bool {
    let holds = exists|j: int| 0 <= j < voices.len() && (#[trigger] voices[j]).note == Some(note);
    let free = exists|j: int| 0 <= j < voices.len() && (#[trigger] voices[j]).note is None;
    &&& 0 <= i < voices.len()
    &&& if holds {
        voices[i].note == Some(note)
    } else {
        &&& free ==> voices[i].note is None
        &&& forall|j: int|
            0 <= j < voices.len() && (free ==> (#[trigger] voices[j]).note is None) ==> (voices[i].order < voices[j].order
                || voices[i].order == voices[j].order && i <= j)
    }
}

impl VoicePool {
    pub closed spec fn view(&self) -> Seq<Entry> {
        self.voices@
    }

    pub closed spec fn attacks(&self) -> nat {
        self.serial as nat
    }

    /// No note is held by two voices, and no voice attacked later than the last attack.
    pub open spec fn wf(&self) -> bool {
        &&& self@.len() > 0
        &&& forall|i: int, j: int|
            0 <= i < j < self@.len() && (#[trigger] self@[i]).note is Some ==> self@[i].note != (#[trigger]
            self@[j]).note
        &&& forall|i: int| 0 <= i < self@.len() ==> (#[trigger] self@[i]).order <= self.attacks()
    }

    pub fn new(count: usize) -> (p: Self)
        requires
            count > 0,
        ensures
            p.wf(),
            p@ == Seq::new(count as nat, |i: int| Entry { note: None, order: 0 }),
            p.attacks() == 0,
    {
        let mut voices: Vec<Entry> = Vec::new();
        let mut i: usize = 0;
        while i < count
            invariant
                i <= count,
                voices@ == Seq::new(i as nat, |k: int| Entry { note: None, order: 0 }),
            decreases count - i,
        {
            voices.push(Entry { note: None, order: 0 });
            i = i + 1;
        }
        VoicePool { voices, serial: 0 }
    }

    /// The voice that holds a note.
    fn holder(&self, note: u8) -> (at: Option<usize>)
        ensures
            at matches Some(i) ==> i < self@.len() && self@[i as int].note == Some(note),
            at is None ==> forall|j: int| 0 <= j < self@.len() ==> (#[trigger] self@[j]).note != Some(note),
    {
        let mut i: usize = 0;
        while i < self.voices.len()
            invariant
                i <= self.voices@.len(),
                forall|j: int| 0 <= j < i ==> (#[trigger] self@[j]).note != Some(note),
            decreases self.voices@.len() - i,
        {
            if self.voices[i].note == Some(note) {
                return Some(i);
            }
            i = i + 1;
        }
        None
    }

    /// Some voice is released.
    fn any_free(&self) -> (free: bool)
        ensures
            free == exists|j: int| 0 <= j < self@.len() && (#[trigger] self@[j]).note is None,
    {
        let mut i: usize = 0;
        while i < self.voices.len()
            invariant
                i <= self.voices@.len(),
                forall|j: int| 0 <= j < i ==> (#[trigger] self@[j]).note is Some,
            decreases self.voices@.len() - i,
        {
            if self.voices[i].note.is_none() {
                assert(self@[i as int].note is None);
                return true;
            }
            i = i + 1;
        }
        false
    }

    /// The voice that attacked longest ago, of the released ones where there are any.
    fn oldest(&self) -> (at: usize)
        requires
            self.wf(),
        ensures
            at < self@.len(),
            ({
                let free = exists|j: int| 0 <= j < self@.len() && (#[trigger] self@[j]).note is None;
                &&& free ==> self@[at as int].note is None
                &&& forall|j: int|
                    0 <= j < self@.len() && (free ==> (#[trigger] self@[j]).note is None) ==> (
                    self@[at as int].order < self@[j].order || self@[at as int].order == self@[j].order && at <= j)
            }),
    {
        let free: bool = self.any_free();
        let mut best: Option<usize> = None;
        let mut i: usize = 0;
        while i < self.voices.len()
            invariant
                i <= self.voices@.len(),
                best matches Some(b) ==> {
                    &&& b < i
                    &&& free ==> self@[b as int].note is None
                    &&& forall|j: int|
                        0 <= j < i && (free ==> (#[trigger] self@[j]).note is None) ==> (self@[b as int].order
                            < self@[j].order || self@[b as int].order == self@[j].order && b <= j)
                },
                best is None ==> forall|j: int|
                    0 <= j < i ==> !(free ==> (#[trigger] self@[j]).note is None),
            decreases self.voices@.len() - i,
        {
            let entry: Entry = self.voices[i];
            if !free || entry.note.is_none() {
                let earlier: bool = match best {
                    None => true,
                    Some(b) => self.voices[b].order > entry.order,
                };
                if earlier {
                    best = Some(i);
                }
            }
            i = i + 1;
        }
        match best {
            Some(b) => b,
            None => {
                proof {
                    if free {
                        let j = choose|j: int| 0 <= j < self@.len() && (#[trigger] self@[j]).note is None;
                        assert(!(free ==> self@[j].note is None));
                    } else {
                        assert(!(free ==> self@[0].note is None));
                    }
                }
                0
            },
        }
    }

    /// A note on: the voice that plays it.
    pub fn note_on(&mut self, note: u8) -> (voice: usize)
        requires
            old(self).wf(),
            old(self).attacks() < u64::MAX,
        ensures
            final(self).wf(),
            final(self).attacks() == old(self).attacks() + 1,
            chosen(old(self)@, note, voice as int),
            final(self)@ == old(self)@.update(
                voice as int,
                Entry { note: Some(note), order: final(self).attacks() as u64 },
            ),
    {
        let held: Option<usize> = self.holder(note);
        let i: usize = match held {
            Some(i) => i,
            None => self.oldest(),
        };
        self.serial = self.serial + 1;
        let order: u64 = self.serial;
        self.voices[i] = Entry { note: Some(note), order };
        proof {
            let (a, b) = (old(self)@, self@);
            assert(b == a.update(i as int, Entry { note: Some(note), order }));
            if held is Some {
                assert(a[i as int].note == Some(note));
            }
            assert forall|x: int, y: int|
                0 <= x < y < b.len() && (#[trigger] b[x]).note is Some implies b[x].note != (#[trigger] b[y]).note by {
                if held is None {
                    assert(a[x].note != Some(note));
                    assert(a[y].note != Some(note));
                } else if x == i || y == i {
                    assert(a[x].note is Some ==> a[x].note != a[y].note);
                }
            }
        }
        i
    }

    /// A note off: the voice to release, if one holds the note. A voice another note took since stays.
    pub fn note_off(&mut self, note: u8) -> (voice: Option<usize>)
        requires
            old(self).wf(),
        ensures
            final(self).wf(),
            final(self).attacks() == old(self).attacks(),
            voice matches Some(i) ==> {
                &&& i < old(self)@.len()
                &&& old(self)@[i as int].note == Some(note)
                &&& final(self)@ == old(self)@.update(i as int, Entry { note: None, ..old(self)@[i as int] })
            },
            voice is None ==> {
                &&& final(self)@ == old(self)@
                &&& forall|j: int| 0 <= j < old(self)@.len() ==> (#[trigger] old(self)@[j]).note != Some(note)
            },
    {
        let held: Option<usize> = self.holder(note);
        if let Some(i) = held {
            let order: u64 = self.voices[i].order;
            self.voices[i] = Entry { note: None, order };
            assert(self@ == old(self)@.update(i as int, Entry { note: None, order }));
        }
        held
    }

    /// Every note off.
    pub fn all_notes_off(&mut self)
        requires
            old(self).wf(),
        ensures
            final(self).wf(),
            final(self).attacks() == old(self).attacks(),
            final(self)@ == old(self)@.map_values(|e: Entry| Entry { note: None, ..e }),
    {
        let mut i: usize = 0;
        let ghost whole = self.voices@.map_values(|e: Entry| Entry { note: None, ..e });
        while i < self.voices.len()
            invariant
                i <= self.voices@.len(),
                self.serial == old(self).serial,
                self.voices@.len() == old(self).voices@.len() == whole.len(),
                forall|k: int| 0 <= k < i ==> self.voices@[k] == whole[k],
                forall|k: int| i <= k < whole.len() ==> self.voices@[k] == old(self).voices@[k],
                whole == old(self).voices@.map_values(|e: Entry| Entry { note: None, ..e }),
            decreases self.voices@.len() - i,
        {
            let order: u64 = self.voices[i].order;
            self.voices[i] = Entry { note: None, order };
            i = i + 1;
        }
        assert(self@ =~= whole);
        proof {
            assert forall|k: int| 0 <= k < self@.len() implies (#[trigger] self@[k]).order <= self.attacks() by {
                assert(old(self)@[k].order <= old(self).attacks());
            }
        }
    }

    /// A note that sounds is taken over only when every voice holds one: with a released voice left, a new
    /// note leaves the others alone.
    pub proof fn law_no_note_is_stolen_while_a_voice_is_free(voices: Seq<Entry>, note: u8, i: int, j: int)
        requires
            chosen(voices, note, i),
            0 <= j < voices.len(),
            voices[j].note is None,
        ensures
            voices[i].note is None || voices[i].note == Some(note),
    {
    }
}

} // verus!
