//! The two input sends, an echo and a reverb on the live signal: what they are set to, the tempo the echo
//! follows, and when they rest.
//!
//! On and off move what goes into a send, not what comes out of it, so its tail rings out. A send that is
//! off and has decayed renders nothing until it opens again.

use vstd::prelude::*;

use crate::api::{InputSend, InputSendParam};
use crate::dsp::fx::{division, value_of_division, MAX_FEEDBACK, ONE, ZERO};
use crate::dsp::fx;
use crate::float::Double;
use crate::grid::Frame;

verus! {

/// The echo: its controls, and whether anything is left in its line.
pub struct Echo {
    pub on: bool,
    /// One of the note divisions.
    pub time: usize,
    pub feedback: Double,
    pub level: Double,
    /// Zeros written into the line in a row, up to its length.
    pub quiet: usize,
    pub span: usize,
    pub idle: bool,
    /// What was written into the line, sample by sample: a zero or not.
    pub written: Ghost<Seq<bool>>,
}

/// The reverb: its controls, and whether it sounds.
pub struct Reverb {
    pub on: bool,
    pub level: Double,
    /// Nothing goes in for the whole quantum being rendered.
    pub shut: bool,
    /// Something has gone in once.
    pub used: bool,
    /// The last frames rendered were silent.
    pub silent: bool,
}

pub struct InputFx {
    pub offset: Frame,
    /// The tempo the echo holds; 0 before the clock hands it one.
    pub bpm: u32,
    pub echo: Echo,
    pub reverb: Reverb,
    /// The quantum whose control values are computed.
    pub prepared: Option<u64>,
}

/// How many zeros a run of writes ends with.
pub open spec fn trailing(written: Seq<bool>) -> nat
    decreases written.len(),
{
    if written.len() > 0 && written.last() {
        1 + trailing(written.drop_last())
    } else {
        0
    }
}

impl Echo {
    /// The count is that of the last writes that were zeros, as far as the line reaches.
    pub open spec fn wf(&self) -> bool {
        &&& self.time < fx::DIVISION_COUNT
        &&& self.quiet <= self.span
        &&& self.written@.len() >= self.span
        &&& self.quiet == (if trailing(self.written@) < self.span {
            trailing(self.written@)
        } else {
            self.span as nat
        })
    }

    /// The line holds nothing but zeros: the last writes, as many as it is long, were zeros.
    pub open spec fn empty(&self) -> bool {
        forall|k: int| self.written@.len() - self.span <= k < self.written@.len() ==> #[trigger] self.written@[k]
    }

    /// A line that counts as quiet is empty.
    pub proof fn law_a_quiet_line_is_empty(&self)
        requires
            self.wf(),
            self.quiet >= self.span,
        ensures
            self.empty(),
    {
        lemma_trailing(self.written@, self.span as int);
    }

    /// A new quantum, `open` where anything goes in: whether the echo renders.
    pub fn begin_quantum(&mut self, open: bool) -> (renders: bool)
        requires
            old(self).wf(),
        ensures
            final(self).wf(),
            *final(self) == (Echo { idle: !open && old(self).quiet >= old(self).span, ..*old(self) }),
            renders == !final(self).idle,
            final(self).idle ==> final(self).empty(),
    {
        self.idle = !open && self.quiet >= self.span;
        proof {
            if self.quiet >= self.span {
                self.law_a_quiet_line_is_empty();
            }
        }
        !self.idle
    }

    /// A sample written into the line.
    pub fn wrote(&mut self, zero: bool)
        requires
            old(self).wf(),
        ensures
            final(self).wf(),
            *final(self) == (Echo { quiet: final(self).quiet, written: final(self).written, ..*old(self) }),
            final(self).written@ == old(self).written@.push(zero),
    {
        if zero {
            if self.quiet < self.span {
                self.quiet = self.quiet + 1;
            }
        } else {
            self.quiet = 0;
        }
        proof {
            self.written@ = self.written@.push(zero);
            assert(self.written@.drop_last() =~= old(self).written@);
        }
    }
}

/// A run that ends with `n` zeros has zeros in its last `n` places.
proof fn lemma_trailing(written: Seq<bool>, n: int)
    requires
        0 <= n <= trailing(written),
    ensures
        n <= written.len(),
        forall|k: int| written.len() - n <= k < written.len() ==> #[trigger] written[k],
    decreases written.len(),
{
    if n > 0 {
        lemma_trailing(written.drop_last(), n - 1);
        assert forall|k: int| written.len() - n <= k < written.len() implies #[trigger] written[k] by {
            if k < written.len() - 1 {
                assert(written.drop_last()[k]);
            }
        }
    }
}

proof fn lemma_all_zeros(n: nat)
    ensures
        trailing(Seq::new(n, |k: int| true)) == n,
    decreases n,
{
    if n > 0 {
        assert(Seq::new(n, |k: int| true).drop_last() =~= Seq::new((n - 1) as nat, |k: int| true));
        lemma_all_zeros((n - 1) as nat);
    }
}

impl InputFx {
    pub open spec fn wf(&self) -> bool {
        self.echo.wf()
    }

    /// Both sends off, the echo's line of `span` samples empty.
    pub fn new(span: usize, time: usize, feedback: Double, level: Double, reverb_level: Double) -> (s: Self)
        requires
            time < fx::DIVISION_COUNT,
        ensures
            s.wf(),
            !s.echo.on && !s.reverb.on,
            s.resting(),
            s.bpm == 0,
            s.echo.time == time,
            s.echo.feedback == feedback,
            s.echo.level == level,
            s.echo.span == span,
            s.reverb.level == reverb_level,
            s.prepared is None,
            s.offset == 0,
    {
        proof {
            lemma_all_zeros(span as nat);
        }
        InputFx {
            offset: 0,
            bpm: 0,
            echo: Echo {
                on: false,
                time,
                feedback,
                level,
                quiet: span,
                span,
                idle: true,
                written: Ghost(Seq::new(span as nat, |k: int| true)),
            },
            reverb: Reverb { on: false, level: reverb_level, shut: true, used: false, silent: true },
            prepared: None,
        }
    }

    pub open spec fn is_send_on(&self, send: InputSend) -> bool {
        match send {
            InputSend::Echo => self.echo.on,
            InputSend::Reverb => self.reverb.on,
        }
    }

    pub fn is_on(&self, send: InputSend) -> (on: bool)
        ensures
            on == self.is_send_on(send),
    {
        match send {
            InputSend::Echo => self.echo.on,
            InputSend::Reverb => self.reverb.on,
        }
    }

    pub open spec fn value(&self, param: InputSendParam) -> Double {
        match param {
            InputSendParam::EchoTime => fx::division_value(self.echo.time as int),
            InputSendParam::EchoFeedback => self.echo.feedback,
            InputSendParam::EchoLevel => self.echo.level,
            InputSendParam::ReverbLevel => self.reverb.level,
        }
    }

    pub fn param(&self, param: InputSendParam) -> (value: Double)
        ensures
            value == self.value(param),
    {
        match param {
            InputSendParam::EchoTime => value_of_division(self.echo.time),
            InputSendParam::EchoFeedback => self.echo.feedback,
            InputSendParam::EchoLevel => self.echo.level,
            InputSendParam::ReverbLevel => self.reverb.level,
        }
    }

    /// Neither send rendered anything in the last frames.
    pub open spec fn resting(&self) -> bool {
        self.echo.idle && self.reverb.silent
    }

    pub fn idle(&self) -> (r: bool)
        ensures
            r == self.resting(),
    {
        self.echo.idle && self.reverb.silent
    }

    /// Open or shut what goes into a send.
    pub fn set_on(&mut self, send: InputSend, on: bool)
        requires
            old(self).wf(),
        ensures
            final(self).wf(),
            *final(self) == (match send {
                InputSend::Echo => InputFx { echo: Echo { on, ..old(self).echo }, ..*old(self) },
                InputSend::Reverb => InputFx { reverb: Reverb { on, ..old(self).reverb }, ..*old(self) },
            }),
    {
        match send {
            InputSend::Echo => {
                self.echo.on = on;
            },
            InputSend::Reverb => {
                self.reverb.on = on;
            },
        }
    }

    /// What a control asks for, held in its range.
    pub open spec fn asked(param: InputSendParam, value: Double) -> Double {
        match param {
            InputSendParam::EchoTime => fx::division_value(fx::division_of(value)),
            InputSendParam::EchoFeedback => value.held(Double { bits: ZERO }, Double { bits: MAX_FEEDBACK }),
            _ => value.held(Double { bits: ZERO }, Double { bits: ONE }),
        }
    }

    /// A control of a send, held in its range; what is no finite number does nothing.
    pub fn set_param(&mut self, param: InputSendParam, value: Double)
        requires
            old(self).wf(),
        ensures
            final(self).wf(),
            forall|p: InputSendParam| #[trigger]
                final(self).value(p) == (if p == param && value.finite() {
                    InputFx::asked(param, value)
                } else {
                    old(self).value(p)
                }),
            *final(self) == (InputFx {
                echo: Echo {
                    time: final(self).echo.time,
                    feedback: final(self).echo.feedback,
                    level: final(self).echo.level,
                    ..old(self).echo
                },
                reverb: Reverb { level: final(self).reverb.level, ..old(self).reverb },
                ..*old(self)
            }),
    {
        if !value.is_finite() {
            return;
        }
        match param {
            InputSendParam::EchoTime => {
                self.echo.time = division(value);
            },
            InputSendParam::EchoFeedback => {
                self.echo.feedback = value.hold(Double { bits: ZERO }, Double { bits: MAX_FEEDBACK });
            },
            InputSendParam::EchoLevel => {
                self.echo.level = value.hold(Double { bits: ZERO }, Double { bits: ONE });
            },
            InputSendParam::ReverbLevel => {
                self.reverb.level = value.hold(Double { bits: ZERO }, Double { bits: ONE });
            },
        }
    }

    /// The clock's tempo: whether the echo must be timed anew.
    pub fn follow_tempo(&mut self, bpm: u32) -> (moved: bool)
        requires
            old(self).wf(),
        ensures
            final(self).wf(),
            moved == (bpm != old(self).bpm && bpm != 0),
            *final(self) == (InputFx {
                bpm: if moved {
                    bpm
                } else {
                    old(self).bpm
                },
                ..*old(self)
            }),
    {
        if bpm == self.bpm || bpm == 0 {
            return false;
        }
        self.bpm = bpm;
        true
    }

    /// The quantum a frame is in starts: true where its control values are still to be computed.
    pub fn enter(&mut self, quantum: u64) -> (fresh: bool)
        requires
            old(self).wf(),
        ensures
            final(self).wf(),
            fresh == (old(self).prepared != Some(quantum)),
            *final(self) == (InputFx { prepared: Some(quantum), ..*old(self) }),
    {
        let fresh: bool = self.prepared != Some(quantum);
        self.prepared = Some(quantum);
        fresh
    }
}

impl Reverb {
    /// A new quantum, `open` where anything goes in: whether the reverb is asked to render. Before
    /// anything has gone in once, it never is.
    pub fn begin_quantum(&mut self, open: bool) -> (renders: bool)
        ensures
            *final(self) == (Reverb { shut: !open, used: old(self).used || open, ..*old(self) }),
            renders == final(self).used,
    {
        self.shut = !open;
        self.used = self.used || open;
        self.used
    }

    /// Frames rendered, `silent` as the convolver said where it was asked.
    pub fn rendered(&mut self, silent: bool) -> (sounds: bool)
        ensures
            *final(self) == (Reverb { silent: !old(self).used || silent, ..*old(self) }),
            sounds == !final(self).silent,
    {
        self.silent = !self.used || silent;
        !self.silent
    }
}

/// A send's control is held in its range, and left alone inside it: a time is one of the divisions, a feedback from 0 to
/// its most, a level from 0 to 1.
pub proof fn law_a_send_is_held_in_its_range(value: Double)
    ensures
        ({
            let (zero, one, most) = (Double { bits: ZERO }, Double { bits: ONE }, Double { bits: MAX_FEEDBACK });
            let feedback = InputFx::asked(InputSendParam::EchoFeedback, value);
            let echo = InputFx::asked(InputSendParam::EchoLevel, value);
            let reverb = InputFx::asked(InputSendParam::ReverbLevel, value);
            let time = InputFx::asked(InputSendParam::EchoTime, value);
            &&& zero.rank() <= feedback.rank() <= most.rank()
            &&& zero.rank() <= echo.rank() <= one.rank()
            &&& reverb == echo
            &&& zero.rank() <= value.rank() <= most.rank() ==> feedback == value
            &&& zero.rank() <= value.rank() <= one.rank() ==> echo == value
            &&& exists|i: int| 0 <= i < 4 && time == #[trigger] fx::division_value(i)
            &&& InputFx::asked(InputSendParam::EchoTime, time) == time
        }),
{
    let i = fx::division_of(value);
    assert(InputFx::asked(InputSendParam::EchoTime, value) == fx::division_value(i));
}

} // verus!
