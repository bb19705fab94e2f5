//! The bass is monophonic: a stack of held notes.

use vstd::prelude::*;

use crate::float::Double;

verus! {

/// The held notes, the newest last, and the one that sounds.
pub struct HeldNotes {
    notes: Vec<(u8, Double)>,
    sounding: Option<u8>,
}

/// What a note off asks of the voice.
#[derive(Clone, Copy, Debug, PartialEq, Eq, Structural)]
pub enum Release {
    /// Nothing: the note was not held, or not the one that sounds.
    Nothing,
    /// Sound the held note below, at the velocity it was played with.
    Attack(u8, Double),
    /// No note is held any more.
    Silence,
}

/// The place of a note among held ones.
pub open spec fn place_of(held: Seq<(u8, Double)>, note: u8) -> Option<int> {
    if exists|i: int| 0 <= i < held.len() && (#[trigger] held[i]).0 == note {
        Some(choose|i: int| 0 <= i < held.len() && (#[trigger] held[i]).0 == note)
    } else {
        None
    }
}

/// The held notes without one.
pub open spec fn without(held: Seq<(u8, Double)>, note: u8) -> Seq<(u8, Double)> {
    match place_of(held, note) {
        Some(i) => held.remove(i),
        None => held,
    }
}

impl HeldNotes {
    pub closed spec fn held(&self) -> Seq<(u8, Double)> {
        self.notes@
    }

    pub closed spec fn sound(&self) -> Option<u8> {
        self.sounding
    }

    /// No note is held twice, and the one that sounds is the newest.
    pub open spec fn wf(&self) -> bool {
        &&& forall|i: int, j: int|
            0 <= i < j < self.held().len() ==> (#[trigger] self.held()[i]).0 != (#[trigger] self.held()[j]).0
        &&& self.sound() == (if self.held().len() == 0 {
            None
        } else {
            Some(self.held().last().0)
        })
    }

    pub fn new() -> (h: Self)
        ensures
            h.wf(),
            h.held() == Seq::<(u8, Double)>::empty(),
    {
        HeldNotes { notes: Vec::new(), sounding: None }
    }

    fn find(&self, note: u8) -> (at: Option<usize>)
        requires
            self.wf(),
        ensures
            at matches Some(i) ==> i < self.held().len() && self.held()[i as int].0 == note && place_of(
                self.held(),
                note,
            ) == Some(i as int),
            at is None ==> place_of(self.held(), note) is None,
    {
        let mut i: usize = 0;
        while i < self.notes.len()
            invariant
                self.wf(),
                i <= self.notes@.len(),
                forall|k: int| 0 <= k < i ==> (#[trigger] self.held()[k]).0 != note,
            decreases self.notes@.len() - i,
        {
            if self.notes[i].0 == note {
                assert(self.held()[i as int].0 == note);
                return Some(i);
            }
            i = i + 1;
        }
        None
    }

    /// A note on: the note moves to the top and sounds.
    pub fn note_on(&mut self, note: u8, velocity: Double)
        requires
            old(self).wf(),
        ensures
            final(self).wf(),
            final(self).held() == without(old(self).held(), note).push((note, velocity)),
            final(self).sound() == Some(note),
    {
        let at: Option<usize> = self.find(note);
        if let Some(i) = at {
            self.notes.remove(i);
        }
        self.notes.push((note, velocity));
        self.sounding = Some(note);
        proof {
            let before = without(old(self).held(), note);
            assert(self.held() == before.push((note, velocity)));
            assert forall|i: int| 0 <= i < before.len() implies (#[trigger] before[i]).0 != note by {
                if at is None {
                    assert(old(self).held()[i].0 != note);
                }
            }
        }
    }

    /// A note off: the note below the sounding one sounds again, or the voice falls silent; a note that
    /// is held but does not sound is only let go.
    pub fn note_off(&mut self, note: u8) -> (asked: Release)
        requires
            old(self).wf(),
        ensures
            final(self).wf(),
            final(self).held() == without(old(self).held(), note),
            asked == (if old(self).sound() != Some(note) {
                Release::Nothing
            } else if final(self).held().len() == 0 {
                Release::Silence
            } else {
                Release::Attack(final(self).held().last().0, final(self).held().last().1)
            }),
    {
        match self.find(note) {
            None => {
                assert(old(self).sound() != Some(note)) by {
                    let held = old(self).held();
                    if held.len() > 0 && held.last().0 == note {
                        assert(held[held.len() - 1].0 == note);
                    }
                }
                Release::Nothing
            },
            Some(i) => {
                self.notes.remove(i);
                if self.sounding != Some(note) {
                    proof {
                        let held = old(self).held();
                        assert(i < held.len() - 1);
                        assert(self.held().last() == held.last());
                    }
                    return Release::Nothing;
                }
                let n: usize = self.notes.len();
                if n == 0 {
                    self.sounding = None;
                    Release::Silence
                } else {
                    let (below, velocity): (u8, Double) = self.notes[n - 1];
                    self.sounding = Some(below);
                    Release::Attack(below, velocity)
                }
            },
        }
    }

    /// Every note off.
    pub fn all_notes_off(&mut self)
        ensures
            final(self).wf(),
            final(self).held() == Seq::<(u8, Double)>::empty(),
            final(self).sound() is None,
    {
        self.notes.clear();
        self.sounding = None;
    }
}

/// A note struck and lifted leaves the other held notes as they were, in their order; a note struck twice is held once,
/// on top.
pub proof fn law_a_note_struck_and_lifted_leaves_the_others(held: Seq<(u8, Double)>, note: u8, velocity: Double)
    requires
        forall|i: int, j: int| 0 <= i < j < held.len() ==> (#[trigger] held[i]).0 != (#[trigger] held[j]).0,
    ensures
        ({
            let struck = without(held, note).push((note, velocity));
            &&& without(struck, note) == without(held, note)
            &&& struck.last() == (note, velocity)
            &&& forall|i: int| 0 <= i < without(held, note).len() ==> (#[trigger] without(held, note)[i]).0 != note
            &&& forall|i: int| 0 <= i < held.len() && (#[trigger] held[i]).0 != note ==> without(held, note).contains(held[i])
        }),
{
    let rest = without(held, note);
    let struck = rest.push((note, velocity));
    let n = rest.len() as int;
    assert forall|i: int| 0 <= i < rest.len() implies (#[trigger] rest[i]).0 != note by {
        if place_of(held, note) is None {
            assert(held[i].0 != note);
        }
    }
    assert(struck[n].0 == note);
    let at = place_of(struck, note)->0;
    assert(at == n) by {
        assert(struck[at].0 == note);
        if at < n {
            assert(rest[at].0 != note);
        }
    }
    assert(struck.remove(n) =~= rest);
    assert forall|i: int| 0 <= i < held.len() && (#[trigger] held[i]).0 != note implies rest.contains(held[i]) by {
        match place_of(held, note) {
            None => {
                assert(rest[i] == held[i]);
            },
            Some(p) => {
                if i < p {
                    assert(rest[i] == held[i]);
                } else {
                    assert(rest[i - 1] == held[i]);
                }
            },
        }
    }
}

} // verus!
