//! When a source starts and stops: the frames of a render quantum it sounds in.

use vstd::prelude::*;

verus! {

/// Frames per render quantum.
pub const QUANTUM: usize = 128;

#[derive(Clone, Copy, Debug, PartialEq, Eq, Structural)]
pub enum PlaybackState {
    Unscheduled,
    Scheduled,
    Playing,
    Finished,
}

/// The start and the stop of a source, on whole frames: its first frame, and the frame it is silent from.
#[derive(Clone, Copy, Debug, PartialEq, Eq, Structural)]
pub struct Schedule {
    pub state: PlaybackState,
    pub start: u64,
    pub end: Option<u64>,
}

/// Where in a quantum a source sounds: `frames` frames from `offset` on. `first` on the quantum it
/// starts in.
#[derive(Clone, Copy, Debug, PartialEq, Eq, Structural)]
pub struct Span {
    pub offset: usize,
    pub frames: usize,
    pub first: bool,
}

impl Span {
    /// Frame `at` of the quantum is in it.
    pub open spec fn holds(self, at: int) -> bool {
        self.offset <= at < self.offset + self.frames
    }
}

impl Schedule {
    /// Nothing planned.
    pub open spec fn idle(self) -> bool {
        self.state == PlaybackState::Unscheduled && self.start == 0 && self.end is None
    }

    pub fn new() -> (s: Self)
        ensures
            s.idle(),
    {
        Schedule { state: PlaybackState::Unscheduled, start: 0, end: None }
    }

    /// The source sounds on a frame, by its start and its stop.
    pub open spec fn sounds(self, frame: int) -> bool {
        self.start <= frame && (self.end matches Some(e) ==> frame < e)
    }

    /// It was started and has not ended.
    pub open spec fn live(self) -> bool {
        self.state == PlaybackState::Scheduled || self.state == PlaybackState::Playing
    }

    /// Start at a frame, once.
    pub fn start_at(&mut self, frame: u64)
        ensures
            *final(self) == (if old(self).state == PlaybackState::Unscheduled {
                Schedule { state: PlaybackState::Scheduled, start: frame, ..*old(self) }
            } else {
                *old(self)
            }),
    {
        if self.state == PlaybackState::Unscheduled {
            self.start = frame;
            self.state = PlaybackState::Scheduled;
        }
    }

    /// Stop at a frame: the last call counts. A source that was never started cannot stop.
    pub fn stop_at(&mut self, frame: u64)
        ensures
            *final(self) == (if old(self).state == PlaybackState::Unscheduled {
                *old(self)
            } else {
                Schedule { end: Some(frame), ..*old(self) }
            }),
    {
        if self.state != PlaybackState::Unscheduled {
            self.end = Some(frame);
        }
    }

    /// The state once the quantum from `quantum` on is over: finished from the quantum the stop falls
    /// in, playing from the one the start falls in.
    pub open spec fn state_after(self, quantum: int) -> PlaybackState {
        if self.end is Some && self.end->0 <= quantum {
            PlaybackState::Finished
        } else if !self.live() || self.start >= quantum + QUANTUM {
            self.state
        } else if self.end is Some && self.end->0 <= quantum + QUANTUM {
            PlaybackState::Finished
        } else {
            PlaybackState::Playing
        }
    }

    /// The frames of the quantum from `quantum` on that the source sounds in.
    pub fn update(&mut self, quantum: u64) -> (span: Span)
        requires
            quantum <= u64::MAX - QUANTUM,
        ensures
            *final(self) == (Schedule { state: old(self).state_after(quantum as int), ..*old(self) }),
            span.offset + span.frames <= QUANTUM,
            forall|at: int|
                0 <= at < QUANTUM ==> (#[trigger] span.holds(at) <==> old(self).live() && old(self).sounds(
                    quantum + at,
                )),
            span.first <==> old(self).state == PlaybackState::Scheduled && old(self).start < quantum + QUANTUM && (
            old(self).end matches Some(e) ==> e > quantum),
    {
        let past: u64 = quantum + QUANTUM as u64;
        if let Some(end) = self.end {
            if end <= quantum {
                self.state = PlaybackState::Finished;
            }
        }
        if self.state == PlaybackState::Unscheduled || self.state == PlaybackState::Finished || self.start >= past {
            return Span { offset: 0, frames: 0, first: false };
        }
        let first: bool = self.state == PlaybackState::Scheduled;
        self.state = PlaybackState::Playing;
        let offset: usize = if self.start > quantum {
            (self.start - quantum) as usize
        } else {
            0
        };
        let mut frames: usize = QUANTUM - offset;
        if let Some(end) = self.end {
            if end <= past {
                let silent: usize = QUANTUM - (end - quantum) as usize;
                frames = if frames > silent {
                    frames - silent
                } else {
                    0
                };
                self.state = PlaybackState::Finished;
            }
        }
        Span { offset, frames, first }
    }

    /// A source that has finished stays silent.
    pub proof fn law_a_finished_source_stays_silent(self, quantum: int)
        requires
            self.state == PlaybackState::Finished,
        ensures
            self.state_after(quantum) == PlaybackState::Finished,
            !self.live(),
    {
    }

    /// The stop lands on its frame: a source with a stop is finished once the quantum that holds it is
    /// over, and no frame from the stop on sounds.
    pub proof fn law_a_stop_lands_on_its_frame(self, quantum: int, frame: int)
        requires
            self.live(),
            self.end is Some,
            self.start < quantum + QUANTUM,
            self.end->0 <= quantum + QUANTUM,
            frame >= self.end->0,
        ensures
            self.state_after(quantum) == PlaybackState::Finished,
            !self.sounds(frame),
    {
    }
}

} // verus!
