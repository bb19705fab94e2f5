//! Each lane's effects: what their controls are set to, what CLEAR and COPY do to them, and the grid the
//! rhythmic ones follow.
//!
//! The effects run on a clock of their own: the device frame less every frame the device skipped, so that
//! their blocks always follow each other.

use vstd::prelude::*;

use crate::api::TRACK_COUNT;
use crate::deck::FxAction;
use crate::dsp::fx::{FxKind, FxParam, FxState};
use crate::float::Double;
use crate::grid;
use crate::grid::Frame;

verus! {

/// The five effects of a lane, in chain order.
pub struct Chain {
    pub states: [FxState; 5],
}

impl Chain {
    pub open spec fn value(self, param: FxParam) -> Double {
        self.states@[param.effect().place()].params@[param.place()]
    }

    pub open spec fn off(self, kind: FxKind) -> bool {
        self.states@[kind.place()].bypassed
    }

    /// Every value is one its effect keeps.
    pub open spec fn wf(self) -> bool {
        forall|p: FxParam| (#[trigger] self.value(p)).finite() && p.kept(self.value(p)) == self.value(p)
    }

    /// As it comes: every effect bypassed, every value its first.
    pub open spec fn fresh(self) -> bool {
        &&& forall|p: FxParam| #[trigger] self.value(p) == p.limits().2
        &&& forall|k: FxKind| #[trigger] self.off(k)
    }

    /// Set as another.
    pub open spec fn same(self, other: Chain) -> bool {
        &&& forall|p: FxParam| #[trigger] self.value(p) == other.value(p)
        &&& forall|k: FxKind| #[trigger] self.off(k) == other.off(k)
    }

    pub fn new() -> (c: Chain)
        ensures
            c.wf(),
            c.fresh(),
    {
        let c = Chain {
            states: [
                FxState::default_for(FxKind::Filter),
                FxState::default_for(FxKind::Pitch),
                FxState::default_for(FxKind::Stutter),
                FxState::default_for(FxKind::Delay),
                FxState::default_for(FxKind::Reverb),
            ],
        };
        proof {
            assert forall|p: FxParam| #[trigger] c.value(p) == p.limits().2 by {
                p.law_a_parameter_is_its_place();
                assert(c.states@[p.effect().place()].is_default(p.effect()));
                assert(c.states@[p.effect().place()].params@[p.place()] == p.limits().2);
            }
            assert forall|p: FxParam|
                (#[trigger] c.value(p)).finite() && p.kept(c.value(p)) == c.value(p) by {
                p.law_a_fresh_value_is_in_range();
            }
            assert forall|k: FxKind| #[trigger] c.off(k) by {
                assert(c.states@[k.place()].is_default(k));
            }
        }
        c
    }

    /// Set a value as its effect keeps it.
    pub fn set_param(&mut self, param: FxParam, value: Double)
        requires
            old(self).wf(),
            value.finite(),
        ensures
            final(self).wf(),
            forall|p: FxParam| #[trigger]
                final(self).value(p) == (if p == param {
                    param.kept(value)
                } else {
                    old(self).value(p)
                }),
            forall|k: FxKind| #[trigger] final(self).off(k) == old(self).off(k),
    {
        let kept: Double = param.keep(value);
        let (k, i): (usize, usize) = (param.kind().index(), param.index());
        let mut state: FxState = self.states[k];
        state.params[i] = kept;
        self.states[k] = state;
        proof {
            assert forall|p: FxParam| #[trigger]
                self.value(p) == (if p == param {
                    param.kept(value)
                } else {
                    old(self).value(p)
                }) by {
                p.law_a_parameter_is_its_place();
                param.law_a_parameter_is_its_place();
            }
            assert forall|p: FxParam| (#[trigger] self.value(p)).finite() && p.kept(self.value(p)) == self.value(p) by {
                assert(old(self).value(p).finite() && p.kept(old(self).value(p)) == old(self).value(p));
                param.law_a_kept_value_is_kept_again(value);
            }
        }
    }

    pub fn set_bypass(&mut self, kind: FxKind, bypassed: bool)
        requires
            old(self).wf(),
        ensures
            final(self).wf(),
            forall|p: FxParam| #[trigger] final(self).value(p) == old(self).value(p),
            forall|k: FxKind| #[trigger]
                final(self).off(k) == (if k == kind {
                    bypassed
                } else {
                    old(self).off(k)
                }),
    {
        let k: usize = kind.index();
        let mut state: FxState = self.states[k];
        state.bypassed = bypassed;
        self.states[k] = state;
        proof {
            assert forall|p: FxParam| #[trigger] self.value(p) == old(self).value(p) by {
                p.law_a_parameter_is_its_place();
            }
            assert forall|p: FxParam| (#[trigger] self.value(p)).finite() && p.kept(self.value(p)) == self.value(p) by {
                assert(old(self).value(p).finite());
            }
        }
    }

    /// Take another chain's state over, effect by effect: every value in its order, then the bypass.
    pub fn set_state(&mut self, states: &[FxState; 5])
        requires
            old(self).wf(),
            (Chain { states: *states }).wf(),
        ensures
            final(self).wf(),
            final(self).same(Chain { states: *states }),
    {
        let ghost from = Chain { states: *states };
        self.states = *states;
        assert(*self == from);
    }

    pub fn param(&self, param: FxParam) -> (value: Double)
        ensures
            value == self.value(param),
    {
        proof {
            param.law_a_parameter_is_its_place();
        }
        self.states[param.kind().index()].params[param.index()]
    }

    pub fn is_bypassed(&self, kind: FxKind) -> (off: bool)
        ensures
            off == self.off(kind),
    {
        self.states[kind.index()].bypassed
    }
}

/// The lanes' chains, and the grid they hold: its anchor on the effects' clock, and the tempo.
pub struct LaneFx {
    pub chains: Vec<Chain>,
    pub offset: Frame,
    pub timing: Option<(Frame, u32)>,
}

impl LaneFx {
    pub open spec fn wf(&self) -> bool {
        &&& self.chains@.len() == TRACK_COUNT
        &&& forall|i: int| 0 <= i < TRACK_COUNT ==> (#[trigger] self.chains@[i]).wf()
    }

    /// Every chain but one is as it was, and so is the grid.
    pub open spec fn only(&self, before: &LaneFx, lane: int) -> bool {
        &&& self.offset == before.offset
        &&& self.timing == before.timing
        &&& self.chains@ == before.chains@.update(lane, self.chains@[lane])
    }

    pub fn new() -> (fx: Self)
        ensures
            fx.wf(),
            forall|i: int| 0 <= i < TRACK_COUNT ==> (#[trigger] fx.chains@[i]).fresh(),
            fx.offset == 0,
            fx.timing is None,
    {
        let mut chains: Vec<Chain> = Vec::new();
        let mut i: usize = 0;
        while i < TRACK_COUNT
            invariant
                i <= TRACK_COUNT,
                chains@.len() == i,
                forall|k: int| 0 <= k < i ==> (#[trigger] chains@[k]).wf() && chains@[k].fresh(),
            decreases TRACK_COUNT - i,
        {
            chains.push(Chain::new());
            i = i + 1;
        }
        LaneFx { chains, offset: 0, timing: None }
    }

    /// A control of a lane: held in its range; what is no finite number does nothing.
    pub fn set_param(&mut self, lane: usize, param: FxParam, value: Double)
        requires
            old(self).wf(),
            lane < TRACK_COUNT,
        ensures
            final(self).wf(),
            final(self).only(old(self), lane as int),
            forall|p: FxParam| #[trigger]
                final(self).chains@[lane as int].value(p) == (if p == param && value.finite() {
                    param.kept(value.held(param.limits().0, param.limits().1))
                } else {
                    old(self).chains@[lane as int].value(p)
                }),
            forall|k: FxKind| #[trigger]
                final(self).chains@[lane as int].off(k) == old(self).chains@[lane as int].off(k),
    {
        if value.is_finite() {
            let (lo, hi, _): (Double, Double, Double) = param.range();
            self.chains[lane].set_param(param, value.hold(lo, hi));
        }
        assert(self.chains@ =~= old(self).chains@.update(lane as int, self.chains@[lane as int]));
    }

    pub fn set_bypass(&mut self, lane: usize, kind: FxKind, bypassed: bool)
        requires
            old(self).wf(),
            lane < TRACK_COUNT,
        ensures
            final(self).wf(),
            final(self).only(old(self), lane as int),
            forall|p: FxParam| #[trigger]
                final(self).chains@[lane as int].value(p) == old(self).chains@[lane as int].value(p),
            forall|k: FxKind| #[trigger]
                final(self).chains@[lane as int].off(k) == (if k == kind {
                    bypassed
                } else {
                    old(self).chains@[lane as int].off(k)
                }),
    {
        self.chains[lane].set_bypass(kind, bypassed);
        assert(self.chains@ =~= old(self).chains@.update(lane as int, self.chains@[lane as int]));
    }

    /// CLEAR: the lane's effects as they come.
    pub fn reset(&mut self, lane: usize)
        requires
            old(self).wf(),
            lane < TRACK_COUNT,
        ensures
            final(self).wf(),
            final(self).only(old(self), lane as int),
            final(self).chains@[lane as int].fresh(),
    {
        self.chains[lane] = Chain::new();
    }

    /// COPY: lane `to` takes lane `from`'s effects.
    pub fn copy(&mut self, from: usize, to: usize)
        requires
            old(self).wf(),
            from < TRACK_COUNT,
            to < TRACK_COUNT,
        ensures
            final(self).wf(),
            final(self).only(old(self), to as int),
            final(self).chains@[to as int].same(old(self).chains@[from as int]),
    {
        let states: [FxState; 5] = self.chains[from].states;
        assert(old(self).chains@[from as int] == (Chain { states }));
        self.chains[to].set_state(&states);
        assert(self.chains@ =~= old(self).chains@.update(to as int, self.chains@[to as int]));
    }

    /// What the looper asks of the lanes' effects.
    pub fn act(&mut self, action: FxAction)
        requires
            old(self).wf(),
            match action {
                FxAction::Reset { lane } => lane < TRACK_COUNT,
                FxAction::Copy { from, to } => from < TRACK_COUNT && to < TRACK_COUNT,
                FxAction::Param { lane, .. } => lane < TRACK_COUNT,
                FxAction::Bypass { lane, .. } => lane < TRACK_COUNT,
            },
        ensures
            final(self).wf(),
            match action {
                FxAction::Reset { lane } => {
                    &&& final(self).only(old(self), lane as int)
                    &&& final(self).chains@[lane as int].fresh()
                },
                FxAction::Copy { from, to } => {
                    &&& final(self).only(old(self), to as int)
                    &&& final(self).chains@[to as int].same(old(self).chains@[from as int])
                },
                FxAction::Param { lane, param, value } => {
                    &&& final(self).only(old(self), lane as int)
                    &&& forall|p: FxParam| #[trigger]
                        final(self).chains@[lane as int].value(p) == (if p == param && value.finite() {
                            param.kept(value.held(param.limits().0, param.limits().1))
                        } else {
                            old(self).chains@[lane as int].value(p)
                        })
                    &&& forall|k: FxKind| #[trigger]
                        final(self).chains@[lane as int].off(k) == old(self).chains@[lane as int].off(k)
                },
                FxAction::Bypass { lane, kind, bypassed } => {
                    &&& final(self).only(old(self), lane as int)
                    &&& forall|p: FxParam| #[trigger]
                        final(self).chains@[lane as int].value(p) == old(self).chains@[lane as int].value(p)
                    &&& forall|k: FxKind| #[trigger]
                        final(self).chains@[lane as int].off(k) == (if k == kind {
                            bypassed
                        } else {
                            old(self).chains@[lane as int].off(k)
                        })
                },
            },
    {
        match action {
            FxAction::Reset { lane } => self.reset(lane as usize),
            FxAction::Copy { from, to } => self.copy(from as usize, to as usize),
            FxAction::Param { lane, param, value } => self.set_param(lane as usize, param, value),
            FxAction::Bypass { lane, kind, bypassed } => self.set_bypass(lane as usize, kind, bypassed),
        }
    }

    /// Hand the chains the looper's grid if it moved: the anchor on the effects' clock, if they must take
    /// it. No grid (`master` 0) leaves the last one.
    pub fn follow_grid(&mut self, anchor: Frame, master: Frame, bpm: u32) -> (moved: Option<Frame>)
        requires
            old(self).wf(),
            grid::near(old(self).offset as int),
            -2 * grid::HORIZON <= anchor <= 2 * grid::HORIZON,
        ensures
            final(self).wf(),
            final(self).chains == old(self).chains,
            final(self).offset == old(self).offset,
            ({
                let at = (anchor - old(self).offset) as Frame;
                if master == 0 || old(self).timing == Some((at, bpm)) {
                    moved is None && final(self).timing == old(self).timing
                } else {
                    moved == Some(at) && final(self).timing == Some((at, bpm))
                }
            }),
    {
        let at: Frame = anchor - self.offset;
        if master == 0 {
            return None;
        }
        if let Some((a, b)) = self.timing {
            if a == at && b == bpm {
                return None;
            }
        }
        self.timing = Some((at, bpm));
        Some(at)
    }
}

} // verus!
