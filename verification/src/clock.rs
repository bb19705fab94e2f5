//! Tempo (the BPM and its lock) and the beat pulse: ONE grid that serves the free-run, count-in and
//! master anchors, the metronome click it triggers and the click's anti-flam guard. Tap tempo stays in
//! the UI and arrives as a tempo command.
//!
//! No lookahead scheduler: a beat fires on the exact frame its grid puts it, inside a block. Only a
//! jump in the device frame counter (a callback the device never delivered) can leave beats behind:
//! those are dropped, except count-in beats, which fire late on the first frame after the jump so the
//! count stays complete.

use vstd::prelude::*;

use crate::float::{Single, SINGLE_ONE};
use crate::grid::{clamp_bpm, Frame, Grid, BEATS_PER_BAR, FAR, HORIZON, LOOP_LIMIT, MAX_BPM, MIN_BPM};
use crate::float::Double;
use crate::grid;

verus! {

/// Minimum spacing between two clicks: only a true coincidence of two grids at a re-anchor is closer
/// (quarter notes are at least 0.2 s apart at 300 bpm).
pub const MIN_CLICK_SPACING_CENTIS: i64 = 12;

/// Default click level: 0.7, as the UI persists it.
pub const DEFAULT_CLICK_VOLUME_BITS: u32 = 0x3f33_3333;

/// The lowest rate at which every beat lasts a frame.
pub const MIN_SAMPLE_RATE: u32 = 5;

#[derive(Clone, Copy, Debug, PartialEq, Eq, Structural)]
pub struct Pulse {
    pub grid: Grid,
    /// The next beat index to fire.
    pub next: u64,
    /// Beats below this index are count-in beats: they click even with the metronome off.
    pub forced_until: u64,
    /// Only a free-running pulse follows a tempo change.
    pub free_run: bool,
}

impl Pulse {
    #[verifier::opaque]
    pub open spec fn wf(self) -> bool {
        &&& self.grid.runs()
        &&& self.grid.base_index <= self.next
        &&& self.grid.base_index <= self.grid.base_frame + FAR
        &&& self.grid.beat_at(self.next as int) <= 2 * HORIZON
        &&& self.forced_until <= 255
    }

    /// The frame of the next beat.
    pub open spec fn next_at(self) -> int {
        self.grid.beat_at(self.next as int)
    }

    /// The next beat to sound once `frame` is reached: a count beat whatever its frame, else the first
    /// beat not already behind.
    pub open spec fn live(self, frame: int) -> int {
        if self.next < self.forced_until {
            self.next as int
        } else {
            grid::max_int(self.next as int, self.grid.first_beat(frame))
        }
    }

    proof fn lemma_next(self)
        requires
            self.wf(),
        ensures
            self.grid.reaches(self.next as int),
            self.grid.base_frame <= self.next_at(),
            grid::storable(self.next_at()),
            self.next <= self.next_at() + FAR,
            self.grid.den > 0,
    {
        reveal(Pulse::wf);
        self.grid.lemma_reaches(self.next as int);
        self.grid.law_beats_in_order(self.grid.base_index as int, self.next as int);
    }
}

/// One beat the pulse fired: what the beat LED shows, and whether it clicked.
#[derive(Clone, Copy, Debug, PartialEq, Eq, Structural)]
pub struct Beat {
    pub frame: Frame,
    /// Position in the bar, 0 = the accented downbeat.
    pub beat_in_bar: u8,
    /// Count-in beats still to come including this one (4, 3, 2, 1), 0 outside a count.
    pub count_left: u8,
    pub clicked: bool,
}

/// The metronome blip that sounds: the frame it began on, its accent and its level.
#[derive(Clone, Copy, Debug, PartialEq, Eq, Structural)]
pub struct Click {
    pub start: Frame,
    pub accent: bool,
    pub volume: Single,
}

#[derive(Clone, Copy, Debug, PartialEq, Eq, Structural)]
pub struct Clock {
    pub sample_rate: u32,
    pub bpm: u32,
    pub locked: bool,
    pub metronome: bool,
    pub click_volume: Single,
    pub pulse: Option<Pulse>,
    pub last_click: Option<Frame>,
    /// The last click was a late count beat fired after a jump: it may not silence a beat on time.
    pub last_click_late: bool,
    pub click: Option<Click>,
}

impl Clock {
    pub open spec fn wf(self) -> bool {
        &&& MIN_SAMPLE_RATE <= self.sample_rate
        &&& MIN_BPM <= self.bpm <= MAX_BPM
        &&& self.click_volume.finite() && self.click_volume.rank() >= 0
        &&& (self.pulse matches Some(p) ==> p.wf())
        &&& (self.last_click matches Some(f) ==> grid::near(f as int))
    }

    /// A clock nothing was set on: 120 beats a minute, unlocked, silent, no pulse.
    pub open spec fn fresh(sample_rate: u32) -> Clock {
        Clock {
            sample_rate,
            bpm: 120,
            locked: false,
            metronome: false,
            click_volume: Single { bits: DEFAULT_CLICK_VOLUME_BITS },
            pulse: None,
            last_click: None,
            last_click_late: false,
            click: None,
        }
    }

    pub fn new(sample_rate: u32) -> (clock: Self)
        requires
            MIN_SAMPLE_RATE <= sample_rate,
        ensures
            clock.wf(),
            clock == Clock::fresh(sample_rate),
    {
        Clock {
            sample_rate,
            bpm: 120,
            locked: false,
            metronome: false,
            click_volume: Single { bits: DEFAULT_CLICK_VOLUME_BITS },
            pulse: None,
            last_click: None,
            last_click_late: false,
            click: None,
        }
    }

    pub fn bpm(&self) -> (r: u32)
        ensures
            r == self.bpm,
    {
        self.bpm
    }

    pub fn locked(&self) -> (r: bool)
        ensures
            r == self.locked,
    {
        self.locked
    }

    pub fn metronome(&self) -> (r: bool)
        ensures
            r == self.metronome,
    {
        self.metronome
    }

    pub fn click_volume(&self) -> (r: Single)
        ensures
            r == self.click_volume,
    {
        self.click_volume
    }

    /// The frame the pulse fires its next beat on; `None` before the transport runs.
    pub fn next_beat_frame(&self) -> (r: Option<Frame>)
        requires
            self.wf(),
        ensures
            r is Some <==> self.pulse is Some,
            r matches Some(f) ==> f == self.pulse->0.next_at(),
    {
        match self.pulse {
            Some(p) => {
                proof {
                    p.lemma_next();
                }
                Some(p.grid.beat_frame(p.next))
            },
            None => None,
        }
    }

    /// Start the free-running pulse at `now` if nothing runs yet (the engine's first frame).
    pub fn ensure_running(&mut self, now: Frame)
        requires
            old(self).wf(),
            grid::near(now as int),
        ensures
            final(self).wf(),
            *final(self) == (if old(self).pulse is None {
                old(self).free_running(now)
            } else {
                *old(self)
            }),
    {
        if self.pulse.is_none() {
            self.start_free_run(now);
        }
    }

    /// A tempo asked for at a frame.
    pub open spec fn with_bpm(self, bpm: Double, now: Frame) -> Clock {
        let asked = grid::transport_bpm(bpm);
        if self.locked || asked == self.bpm {
            self
        } else {
            let set = Clock { bpm: asked, ..self };
            if self.pulse is Some && self.pulse->0.free_run {
                set.free_running(now)
            } else {
                set
            }
        }
    }

    /// Set the tempo, clamped to [40, 300] and rounded. A no-op while locked or when unchanged. A live
    /// free-run pulse bends to the new period from its next beat; count and master grids keep theirs.
    pub fn set_bpm(&mut self, bpm: Double, now: Frame)
        requires
            old(self).wf(),
            grid::near(now as int),
        ensures
            final(self).wf(),
            *final(self) == old(self).with_bpm(bpm, now),
    {
        if self.locked {
            return;
        }
        let bpm: u32 = clamp_bpm(bpm);
        if bpm == self.bpm {
            return;
        }
        self.bpm = bpm;
        let bend: bool = match self.pulse {
            Some(p) => p.free_run,
            None => false,
        };
        if bend {
            self.start_free_run(now);
        }
    }

    pub fn set_locked(&mut self, locked: bool)
        ensures
            *final(self) == (Clock { locked, ..*old(self) }),
    {
        self.locked = locked;
    }

    pub fn set_metronome(&mut self, on: bool)
        ensures
            *final(self) == (Clock { metronome: on, ..*old(self) }),
    {
        self.metronome = on;
    }

    pub fn set_click_volume(&mut self, volume: Single)
        ensures
            *final(self) == (Clock { click_volume: volume.level(SINGLE_ONE), ..*old(self) }),
            old(self).wf() ==> final(self).wf(),
    {
        self.click_volume = volume.to_level(SINGLE_ONE);
    }

    /// Free-run at the current tempo, carrying the beat a running pulse fires next.
    pub open spec fn free_running(self, now: Frame) -> Clock {
        let (base_frame, base_index) = match self.pulse {
            Some(p) => (p.next_at() as Frame, p.next),
            None => (now, 0u64),
        };
        Clock {
            pulse: Some(
                Pulse {
                    grid: Grid::tempo_grid(base_frame, base_index, self.bpm, self.sample_rate),
                    next: base_index,
                    forced_until: 0,
                    free_run: true,
                },
            ),
            ..self
        }
    }

    /// Free-run at the current tempo. A running grid is CARRIED: its next beat keeps its frame and bar
    /// index, later beats follow the new period, so the LED never hops (count abort, master reset, a
    /// tempo change mid-free-run).
    pub fn start_free_run(&mut self, now: Frame)
        requires
            old(self).wf(),
            grid::near(now as int),
        ensures
            final(self).wf(),
            *final(self) == old(self).free_running(now),
    {
        reveal(Pulse::wf);
        let (base_frame, base_index): (Frame, u64) = match self.pulse {
            Some(p) => {
                proof {
                    p.lemma_next();
                }
                (p.grid.beat_frame(p.next), p.next)
            },
            None => (now, 0),
        };
        let grid = Grid::tempo(base_frame, base_index, self.bpm, self.sample_rate);
        proof {
            grid.law_beats_never_drift(0);
            assert(0 * grid.den == 0 && 0 * grid.num == 0) by (nonlinear_arith);
        }
        self.pulse = Some(Pulse { grid, next: base_index, forced_until: 0, free_run: true });
    }

    /// A carried pulse keeps its next beat: the free-run after it fires the same index on the same frame.
    pub proof fn law_free_run_carries_the_next_beat(self, now: Frame)
        requires
            self.wf(),
            self.pulse is Some,
        ensures
            self.free_running(now).pulse->0.next == self.pulse->0.next,
            self.free_running(now).pulse->0.next_at() == self.pulse->0.next_at(),
    {
        reveal(Pulse::wf);
        self.pulse->0.lemma_next();
        let grid = self.free_running(now).pulse->0.grid;
        grid.law_beats_never_drift(0);
        assert(0 * grid.den == 0 && 0 * grid.num == 0) by (nonlinear_arith);
    }

    /// A pulse locked to a grid from `now` on.
    pub open spec fn on_grid(self, grid: Grid, forced_until: u64, now: Frame) -> Clock {
        Clock {
            pulse: Some(
                Pulse { grid, next: grid.first_beat(now as int) as u64, forced_until, free_run: false },
            ),
            ..self
        }
    }

    fn start_grid(&mut self, grid: Grid, forced_until: u64, now: Frame)
        requires
            old(self).wf(),
            grid.runs(),
            grid.base_index == 0,
            -2 * HORIZON <= grid.base_frame <= 2 * HORIZON,
            forced_until <= 255,
            grid::near(now as int),
        ensures
            final(self).wf(),
            *final(self) == old(self).on_grid(grid, forced_until, now),
    {
        reveal(Pulse::wf);
        proof {
            grid.lemma_first_beat_soon(now as int);
        }
        self.pulse = Some(Pulse { grid, next: grid.first_beat_at_or_after(now), forced_until, free_run: false });
    }

    /// A count-in of `beats` forced beats from `anchor`.
    pub open spec fn counting_in(self, anchor: Frame, beats: u64, now: Frame) -> Clock {
        (Clock { last_click: None, ..self }).on_grid(
            Grid::tempo_grid(anchor, 0, self.bpm, self.sample_rate),
            beats,
            now,
        )
    }

    /// A first-track count-in: `beats` forced beats from `anchor` at the current tempo; the take's
    /// frame 0 is beat `beats`. Clears the anti-flam reference so a fast abort and re-record can never
    /// swallow the new count "1".
    pub fn start_count_in(&mut self, anchor: Frame, beats: u64, now: Frame)
        requires
            old(self).wf(),
            -2 * HORIZON <= anchor <= 2 * HORIZON,
            beats <= 255,
            grid::near(now as int),
        ensures
            final(self).wf(),
            *final(self) == old(self).counting_in(anchor, beats, now),
    {
        self.last_click = None;
        let grid = Grid::tempo(anchor, 0, self.bpm, self.sample_rate);
        self.start_grid(grid, beats, now);
    }

    /// Abort a count-in: carry its grid into free-run.
    pub fn stop_count_in(&mut self, now: Frame)
        requires
            old(self).wf(),
            grid::near(now as int),
        ensures
            final(self).wf(),
            *final(self) == old(self).free_running(now),
    {
        self.start_free_run(now);
    }

    pub open spec fn on_master(self, anchor: Frame, master: Frame, bars: Frame, now: Frame) -> Clock {
        self.on_grid(Grid::master_grid(anchor, master, bars), 0, now)
    }

    /// Lock the pulse to a committed master: `4 * bars` beats per `master` frames from `anchor`, which may
    /// lie in the past (the counted downbeat); the next beat is the first at or after `now`. Keeps the
    /// anti-flam reference, so a count beat that just sounded cannot double with the master's.
    pub fn start_master(&mut self, anchor: Frame, master: Frame, bars: Frame, now: Frame)
        requires
            old(self).wf(),
            -2 * HORIZON <= anchor <= 2 * HORIZON,
            1 <= bars,
            BEATS_PER_BAR * bars <= master <= LOOP_LIMIT,
            grid::near(now as int),
        ensures
            final(self).wf(),
            *final(self) == old(self).on_master(anchor, master, bars, now),
    {
        let grid = Grid::master(anchor, master, bars);
        self.start_grid(grid, 0, now);
    }

    pub open spec fn auto_recording(self, anchor: Frame, now: Frame) -> Clock {
        (Clock { last_click: None, ..self }).on_grid(
            Grid::tempo_grid(anchor, 0, self.bpm, self.sample_rate),
            0,
            now,
        )
    }

    /// AUTO REC: the current tempo from the detected onset, with no count beat to carry.
    pub fn start_auto_record(&mut self, anchor: Frame, now: Frame)
        requires
            old(self).wf(),
            -2 * HORIZON <= anchor <= 2 * HORIZON,
            grid::near(now as int),
        ensures
            final(self).wf(),
            *final(self) == old(self).auto_recording(anchor, now),
    {
        self.last_click = None;
        let grid = Grid::tempo(anchor, 0, self.bpm, self.sample_rate);
        self.start_grid(grid, 0, now);
    }

    /// Master reset: carry the loop grid into free-run.
    pub fn stop_master(&mut self, now: Frame)
        requires
            old(self).wf(),
            grid::near(now as int),
        ensures
            final(self).wf(),
            *final(self) == old(self).free_running(now),
    {
        self.start_free_run(now);
    }

    /// True while a count-in pulse still has forced beats to fire.
    pub fn counting(&self) -> (r: bool)
        ensures
            r == (self.pulse matches Some(p) && p.next < p.forced_until),
    {
        match self.pulse {
            Some(p) => p.next < p.forced_until,
            None => false,
        }
    }

    /// A click may sound: the level is up, and no click was near (a beat on time after a late one may
    /// always sound).
    pub open spec fn may_click(self, frame: Frame, late: bool) -> bool {
        &&& self.click_volume.rank() > 0
        &&& (self.last_click is None || self.last_click_late && !late || !(100 * (frame - self.last_click->0)
            < MIN_CLICK_SPACING_CENTIS * self.sample_rate && 100 * (self.last_click->0 - frame)
            < MIN_CLICK_SPACING_CENTIS * self.sample_rate))
    }

    pub open spec fn clicked(self, frame: Frame, accent: bool, late: bool) -> Clock {
        if self.may_click(frame, late) {
            Clock {
                last_click: Some(frame),
                last_click_late: late,
                click: Some(Click { start: frame, accent, volume: self.click_volume }),
                ..self
            }
        } else {
            self
        }
    }

    /// The beat that fires at `frame`, if one is due.
    pub open spec fn due_beat(self, frame: Frame, transport_until: Option<Frame>) -> Option<Beat> {
        if self.pulse is None {
            None
        } else {
            let p = self.pulse->0;
            let n = p.live(frame as int);
            let at = p.grid.beat_at(n);
            let forced = n < p.forced_until;
            let gate = forced || (self.metronome && transport_until is Some && frame < transport_until->0);
            if at > frame {
                None
            } else {
                Some(
                    Beat {
                        frame,
                        beat_in_bar: (n % 4) as u8,
                        count_left: if forced {
                            (p.forced_until - n) as u8
                        } else {
                            0
                        },
                        clicked: gate && self.may_click(frame, at < frame),
                    },
                )
            }
        }
    }

    /// The clock after [`Clock::fire_due`]: past the beat it fired, or up to the one that lies ahead.
    pub open spec fn after_beat(self, frame: Frame, transport_until: Option<Frame>) -> Clock {
        if self.pulse is None {
            self
        } else {
            let p = self.pulse->0;
            let n = p.live(frame as int);
            match self.due_beat(frame, transport_until) {
                None => Clock { pulse: Some(Pulse { next: n as u64, ..p }), ..self },
                Some(beat) => {
                    let passed = Clock { pulse: Some(Pulse { next: (n + 1) as u64, ..p }), ..self };
                    if beat.clicked {
                        passed.clicked(frame, beat.beat_in_bar == 0, p.grid.beat_at(n) < frame)
                    } else {
                        passed
                    }
                },
            }
        }
    }

    /// No beat falls before the next one: looked at on the way, the clock stays as it is.
    pub proof fn lemma_no_beat_before_the_next(self, mid: Frame, until: Option<Frame>)
        requires
            self.wf(),
            self.pulse matches Some(p) ==> mid < p.next_at(),
        ensures
            self.due_beat(mid, until) is None,
            self.after_beat(mid, until) == self,
    {
        if self.pulse is Some {
            let p = self.pulse->0;
            reveal(Pulse::wf);
            p.grid.lemma_first_beat(mid as int);
            if p.grid.first_beat(mid as int) > p.next {
                assert(p.grid.beat_at(p.next as int) < mid);
            }
            assert(p.live(mid as int) == p.next);
        }
    }

    /// The beats that may still sound at `frame`.
    pub open spec fn beats_left(self, frame: Frame) -> nat {
        match self.pulse {
            Some(p) => grid::max_int(p.grid.first_beat(frame + 1) - p.live(frame as int), 0) as nat,
            None => 0,
        }
    }

    /// A beat fired is one fewer left.
    pub proof fn lemma_one_beat_fewer(self, frame: Frame, transport_until: Option<Frame>)
        requires
            self.wf(),
            grid::near(frame as int),
            self.due_beat(frame, transport_until) is Some,
        ensures
            self.after_beat(frame, transport_until).beats_left(frame) < self.beats_left(frame),
    {
        reveal(Pulse::wf);
        let p = self.pulse->0;
        let n = p.live(frame as int);
        let first = p.grid.first_beat(frame + 1);
        p.lemma_next();
        p.grid.lemma_first_beat_soon(frame + 1);
        p.grid.lemma_first_beat_soon(frame as int);
        if n >= first {
            p.grid.law_beats_in_order(first, n);
        }
        p.grid.lemma_beat_steps(n);
        assert(n + 1 <= u64::MAX);
    }

    /// Fire the next beat due at or before `frame`, or `None` when the next beat lies ahead. A beat
    /// the frame counter jumped over is dropped, unless it is a count beat: that one fires late, on
    /// `frame`. The click sounds on a count beat, or with the metronome on while the transport is
    /// active (a transport active `until` a loop-end stop clicks strictly before it).
    pub fn fire_due(&mut self, frame: Frame, transport_until: Option<Frame>) -> (beat: Option<Beat>)
        requires
            old(self).wf(),
            grid::near(frame as int),
        ensures
            final(self).wf(),
            beat == old(self).due_beat(frame, transport_until),
            *final(self) == old(self).after_beat(frame, transport_until),
            beat is None ==> (final(self).pulse matches Some(p) ==> p.next_at() > frame),
    {
        reveal(Pulse::wf);
        let mut pulse = match self.pulse {
            Some(p) => p,
            None => {
                return None;
            },
        };
        let ghost p0 = pulse;
        proof {
            pulse.lemma_next();
            pulse.grid.lemma_first_beat_soon(frame as int);
        }
        if pulse.next >= pulse.forced_until {
            // Drop the beats that the frame counter jumped over.
            let first: u64 = pulse.grid.first_beat_at_or_after(frame);
            if pulse.next < first {
                pulse.next = first;
            }
        }
        proof {
            pulse.lemma_next();
        }
        let n: u64 = pulse.next;
        assert(n == p0.live(frame as int));
        let at: Frame = pulse.grid.beat_frame(n);
        if at > frame {
            self.pulse = Some(pulse);
            return None;
        }
        proof {
            pulse.grid.lemma_beat_steps(n as int);
        }
        pulse.next = n + 1;
        self.pulse = Some(pulse);
        let forced: bool = n < pulse.forced_until;
        let count_left: u8 = if forced {
            (pulse.forced_until - n) as u8
        } else {
            0
        };
        let beat_in_bar: u8 = (n % BEATS_PER_BAR) as u8;
        let active: bool = match transport_until {
            Some(until) => frame < until,
            None => false,
        };
        let gate: bool = forced || (self.metronome && active);
        let clicked: bool = gate && self.trigger_click(frame, beat_in_bar == 0, at < frame);
        Some(Beat { frame, beat_in_bar, count_left, clicked })
    }

    /// Anti-flam: a click closer than 0.12 s to the previous one is dropped, except a beat on time
    /// after a late count beat (the come-in "1" must sound).
    fn trigger_click(&mut self, frame: Frame, accent: bool, late: bool) -> (clicked: bool)
        requires
            old(self).wf(),
            grid::near(frame as int),
        ensures
            final(self).wf(),
            clicked == old(self).may_click(frame, late),
            *final(self) == old(self).clicked(frame, accent, late),
    {
        if !self.click_volume.is_positive() {
            return false;
        }
        let sr: i64 = self.sample_rate as i64;
        let near: bool = match self.last_click {
            Some(last) => (frame - last) * 100 < MIN_CLICK_SPACING_CENTIS * sr && (last - frame) * 100
                < MIN_CLICK_SPACING_CENTIS * sr,
            None => false,
        };
        let on_time_after_late: bool = self.last_click_late && !late;
        if near && !on_time_after_late {
            return false;
        }
        self.last_click = Some(frame);
        self.last_click_late = late;
        self.click = Some(Click { start: frame, accent, volume: self.click_volume });
        true
    }

    /// The blip that sounds, if one does.
    pub fn sounding_click(&self) -> (r: Option<Click>)
        ensures
            r == self.click,
    {
        self.click
    }

    /// The blip rang out.
    pub fn end_click(&mut self)
        ensures
            *final(self) == (Clock { click: None, ..*old(self) }),
            old(self).wf() ==> final(self).wf(),
    {
        self.click = None;
    }
}

} // verus!
