//! The looper's control state, and what every gesture and every scheduled frame does to it: the five
//! lanes, the single recorder (a take, a RETAKE roll or an overdub), the master loop (its length and
//! grid anchor), the block jobs, and the settings. No sample is in here; [`crate::looper`] holds the
//! buffers and runs this.
//!
//! A [`World`] is the deck with what it acts on: its jobs, the clock, the events it has said. Each
//! transition is a function from one world to the next; the executable looper is proved to be them.

use vstd::prelude::*;

use crate::autorec::{Ear, MAX_SENSITIVITY, MIN_SENSITIVITY};
use crate::api::{Action, Command, Event, LaneInfo, LaneState, Refusal, TRACK_COUNT};
use crate::clock::{Clock, MIN_SAMPLE_RATE};
use crate::dsp::fx::{FxKind, FxParam};
use crate::float::{Double, Single, SINGLE_ONE, SINGLE_ONE_AND_A_HALF};
use crate::grid;
use crate::grid::{Frame, Grid, RetakeStop, TakeFill, COUNT_IN_BEATS, HORIZON, LOOP_LIMIT};
use crate::tasks;

verus! {

pub const MAX_FIXED_BARS: Frame = 32;

/// Buffer positions a block job moves per rendered frame. A job always starts where a read or write head
/// will next touch, so at this rate it stays ahead of both; 60 s at 48 kHz takes about 59 ms.
pub const JOB_RATE: Frame = 1024;

/// The hands-free CLEAR confirm window, in milliseconds.
pub const CONFIRM_WINDOW_MS: Frame = 2500;

/// Each lane owns a live and a spare buffer; one more is free.
pub const BUFFER_COUNT: usize = 11;

/// What the lane's playback reads: a buffer and its orientation. It follows the lane's logical
/// buffer at once while stopped, and at the next loop boundary while playing (an undo or reverse swaps
/// there).
#[derive(Clone, Copy, Debug, PartialEq, Eq, Structural)]
pub struct Audible {
    pub buf: usize,
    pub reversed: bool,
}

#[derive(Clone, Copy, Debug, PartialEq, Eq, Structural)]
pub struct Lane {
    pub state: LaneState,
    pub live: usize,
    pub spare: usize,
    /// The committed loop length (= master), 0 before a commit.
    pub length: Frame,
    /// The loop its buffers hold, which it plays round and round: its length, or the shorter loop it was
    /// before the master grew, until that has been repeated to its length.
    pub period: Frame,
    /// Frames the take in flight has captured.
    pub written: Frame,
    pub armed: bool,
    pub auto_armed: bool,
    /// Orientation of `live`.
    pub reversed: bool,
    /// The spare buffer holds the one-level undo target, in this orientation.
    pub undo_valid: bool,
    pub spare_reversed: bool,
    pub audible: Audible,
    pub switch_at: Option<Frame>,
    pub stop_at: Option<Frame>,
    pub volume: Single,
    pub muted: bool,
}

impl Lane {
    pub open spec fn blank(live: usize, spare: usize) -> Lane {
        Lane {
            state: LaneState::Empty,
            live,
            spare,
            length: 0,
            period: 0,
            written: 0,
            armed: false,
            auto_armed: false,
            reversed: false,
            undo_valid: false,
            spare_reversed: false,
            audible: Audible { buf: live, reversed: false },
            switch_at: None,
            stop_at: None,
            volume: Single { bits: SINGLE_ONE },
            muted: false,
        }
    }

    pub fn new(live: usize, spare: usize) -> (lane: Self)
        ensures
            lane == Lane::blank(live, spare),
    {
        Lane {
            state: LaneState::Empty,
            live,
            spare,
            length: 0,
            period: 0,
            written: 0,
            armed: false,
            auto_armed: false,
            reversed: false,
            undo_valid: false,
            spare_reversed: false,
            audible: Audible { buf: live, reversed: false },
            switch_at: None,
            stop_at: None,
            volume: Single { bits: SINGLE_ONE },
            muted: false,
        }
    }

    pub open spec fn own(self) -> Audible {
        Audible { buf: self.live, reversed: self.reversed }
    }

    pub fn logical(&self) -> (a: Audible)
        ensures
            a == self.own(),
    {
        Audible { buf: self.live, reversed: self.reversed }
    }

    pub open spec fn is_committed(self) -> bool {
        self.state == LaneState::Playing || self.state == LaneState::Stopped
    }

    pub fn committed(&self) -> (r: bool)
        ensures
            r == self.is_committed(),
    {
        self.state == LaneState::Playing || self.state == LaneState::Stopped
    }

    pub open spec fn is_capturing(self) -> bool {
        self.state == LaneState::Recording || self.state == LaneState::Overdubbing
    }

    /// A loop-end stop or a boundary swap waits for a frame.
    pub open spec fn expects(self, f: Frame) -> bool {
        self.stop_at == Some(f) || self.switch_at == Some(f)
    }
}

#[derive(Clone, Copy, Debug, PartialEq, Eq, Structural)]
pub enum Kind {
    Take,
    Overdub,
}

/// A RETAKE roll: the take slides one pass per window end instead of committing.
#[derive(Clone, Copy, Debug, PartialEq, Eq, Structural)]
pub struct Roll {
    /// The 1-based pass in flight.
    pub pass: u32,
    /// The last complete clean pass sits in the free buffer.
    pub kept: bool,
}

/// The single recorder slot: the one take or overdub capturing now.
#[derive(Clone, Copy, Debug, PartialEq, Eq, Structural)]
pub struct Recorder {
    pub lane: usize,
    pub kind: Kind,
    /// The capture window, in input frames: `[start, end)`. `start` is `None` while AUTO listens, `end`
    /// while an overdub or AUTO runs open.
    pub start: Option<Frame>,
    pub end: Option<Frame>,
    /// Input frames a take starts after its downbeat (sampled at the arm).
    pub align: Frame,
    /// PLAY/STOP ended the capture: the lane lands STOPPED and is silent meanwhile.
    pub stop_playback: bool,
    /// A first take's counted downbeat: the grid the master is phase-locked to.
    pub downbeat: Option<Frame>,
    pub roll: Option<Roll>,
    /// An input gap fell inside the window (inside the pass in flight, for a roll).
    pub damaged: bool,
    /// RETAKE: the lane whose REC approved the roll records next, from its pass edge.
    pub handoff: Option<usize>,
    /// Overdub: the loop position of its first input frame, the loop positions summed so far, and the
    /// undo state before it (restored if the layer is discarded).
    pub first_pos: Frame,
    pub summed: Frame,
    pub prev_undo_valid: bool,
    pub prev_spare_reversed: bool,
}

impl Recorder {
    pub open spec fn fresh(lane: usize, kind: Kind, align: Frame) -> Recorder {
        Recorder {
            lane,
            kind,
            start: None,
            end: None,
            align,
            stop_playback: false,
            downbeat: None,
            roll: None,
            damaged: false,
            handoff: None,
            first_pos: 0,
            summed: 0,
            prev_undo_valid: false,
            prev_spare_reversed: false,
        }
    }

    pub fn new(lane: usize, kind: Kind, align: Frame) -> (rec: Self)
        ensures
            rec == Recorder::fresh(lane, kind, align),
    {
        Recorder {
            lane,
            kind,
            start: None,
            end: None,
            align,
            stop_playback: false,
            downbeat: None,
            roll: None,
            damaged: false,
            handoff: None,
            first_pos: 0,
            summed: 0,
            prev_undo_valid: false,
            prev_spare_reversed: false,
        }
    }
}

/// Buffer positions a job visits, in order: `(lo + (off + s) % span) % modulus` for `s` in `0..span`.
#[derive(Clone, Copy, Debug, PartialEq, Eq, Structural)]
pub struct Visit {
    pub lo: Frame,
    pub span: Frame,
    pub off: Frame,
    pub modulus: Frame,
}

impl Visit {
    pub open spec fn wf(self) -> bool {
        &&& 0 <= self.lo <= LOOP_LIMIT
        &&& 1 <= self.span <= LOOP_LIMIT
        &&& 0 <= self.off <= LOOP_LIMIT
        &&& 1 <= self.modulus <= LOOP_LIMIT
    }

    pub open spec fn pos(self, s: int) -> int {
        (self.lo + (self.off + s) % (self.span as int)) % (self.modulus as int)
    }

    pub fn at(&self, s: Frame) -> (p: usize)
        requires
            self.wf(),
            0 <= s <= LOOP_LIMIT,
            self.modulus <= usize::MAX,
        ensures
            p == self.pos(s as int),
            p < self.modulus,
    {
        ((self.lo + (self.off + s) % self.span) % self.modulus) as usize
    }
}

#[derive(Clone, Copy, Debug, PartialEq, Eq, Structural)]
pub enum JobKind {
    /// Rewrite a committed take's padding and tiling in place, or repeat a loop to its lane's length (grid
    /// `TakeFill`).
    Fill { buf: usize, fill: TakeFill },
    /// Copy `src` into `dst` position by position.
    Copy { src: usize, dst: usize },
    /// A discarded overdub layer: copy the pre-layer loop back, then return the previous undo target.
    Restore { src: usize, dst: usize, prev_undo_valid: bool, prev_spare_reversed: bool },
    /// COPY into lane `dst`: done, it becomes STOPPED, or PLAYING when its source played.
    LaneCopy { src: usize, dst: usize, from: usize, to: usize, resume: bool },
}

impl JobKind {
    /// The buffers it touches are distinct ones of the pool, and a fill stays inside its loop.
    pub open spec fn wf(self, modulus: int) -> bool {
        match self {
            JobKind::Fill { buf, fill } => buf < BUFFER_COUNT && fill.wf() && fill.master == modulus,
            JobKind::Copy { src, dst } => src < BUFFER_COUNT && dst < BUFFER_COUNT && src != dst,
            JobKind::Restore { src, dst, .. } => src < BUFFER_COUNT && dst < BUFFER_COUNT && src != dst,
            JobKind::LaneCopy { src, dst, from, to, .. } => src < BUFFER_COUNT && dst < BUFFER_COUNT && src
                != dst && from < TRACK_COUNT && to < TRACK_COUNT,
        }
    }
}

/// Loop-sized work spread over frames: `JOB_RATE` positions per rendered frame from `start`, so its
/// progress, and the frame it is done on, are the same whatever the block size.
#[derive(Clone, Copy, Debug, PartialEq, Eq, Structural)]
pub struct Job {
    pub kind: JobKind,
    pub lane: usize,
    pub visit: Visit,
    pub start: Frame,
    pub progress: Frame,
}

/// A frame the looper stores: within two horizons.
pub open spec fn kept(f: int) -> bool {
    -2 * HORIZON <= f <= 2 * HORIZON
}

pub open spec fn frames_of_job(span: int) -> int {
    (span + JOB_RATE - 1) / (JOB_RATE as int)
}

impl Job {
    pub open spec fn wf(self, capacity: int) -> bool {
        &&& self.lane < TRACK_COUNT
        &&& self.visit.wf()
        &&& self.visit.modulus <= capacity
        &&& self.kind.wf(self.visit.modulus as int)
        &&& (self.kind matches JobKind::Fill { fill, .. } ==> self.visit.lo == fill.kept() && self.visit.lo
            + self.visit.span == fill.master)
        &&& 0 <= self.progress <= self.visit.span
        &&& kept(self.start as int)
    }

    pub open spec fn done_at(self) -> int {
        self.start + frames_of_job(self.visit.span as int)
    }

    pub fn done_frame(&self) -> (f: Frame)
        requires
            kept(self.start as int),
            0 <= self.visit.span <= LOOP_LIMIT,
        ensures
            f == self.done_at(),
    {
        self.start + job_frames(self.visit.span)
    }

    /// A command on `lane` (any lane, for `None`) waits for it: it works on that lane or copies from
    /// it, or it holds the free buffer the command may take.
    pub open spec fn delays(self, lane: Option<usize>, needs_free: bool) -> bool {
        ||| lane is None
        ||| self.lane == lane->0
        ||| self.kind is LaneCopy && self.kind->from == lane->0
        ||| needs_free && self.kind is Restore
    }
}

/// Rendered frames a block job over `span` buffer positions takes: `JOB_RATE` positions a frame.
pub fn job_frames(span: Frame) -> (frames: Frame)
    requires
        0 <= span <= i64::MAX - JOB_RATE,
    ensures
        frames == frames_of_job(span as int),
        (frames - 1) * JOB_RATE < span <= frames * JOB_RATE,
{
    (span + JOB_RATE - 1) / JOB_RATE
}

/// What a command answers: done, or it waits for the lane's block jobs until a frame (`Held`: as a
/// different command, bound to what it resolved when pressed).
#[derive(Clone, Copy, Debug, PartialEq, Eq, Structural)]
pub enum Applied {
    Done,
    WaitUntil(Frame),
    Held(Frame, Command),
}

/// A first CLEAR press: the lane it armed and when.
#[derive(Clone, Copy, Debug, PartialEq, Eq, Structural)]
pub struct ClearArm {
    pub lane: usize,
    pub at: Frame,
}

/// What is to be done to a lane's effects.
#[derive(Clone, Copy, Debug, PartialEq, Eq, Structural)]
pub enum FxAction {
    /// Back to the defaults.
    Reset { lane: u8 },
    /// Lane `to` takes lane `from`'s.
    Copy { from: u8, to: u8 },
    /// A parameter, in its definition's units.
    Param { lane: u8, param: FxParam, value: Double },
    Bypass { lane: u8, kind: FxKind, bypassed: bool },
}

#[derive(Clone, Copy, Debug, PartialEq, Eq)]
pub struct Deck {
    pub sample_rate: u32,
    pub capacity: Frame,
    pub free: usize,
    pub lanes: [Lane; TRACK_COUNT],
    pub rec: Option<Recorder>,
    pub master: Frame,
    pub anchor: Frame,
    pub loop_end_stop: bool,
    pub fixed_length: bool,
    pub fixed_bars: Frame,
    pub retake: bool,
    pub auto_record: bool,
    pub auto_sensitivity: u32,
    pub selected: usize,
    pub clear_armed: Option<ClearArm>,
}

impl Deck {
    /// Nothing records and every lane is EMPTY.
    #[verifier::opaque]
    pub open spec fn is_blank(self) -> bool {
        self.rec is None && forall|k: int|
            0 <= k < TRACK_COUNT ==> (#[trigger] self.lanes@[k]).state == LaneState::Empty
    }

    #[verifier::opaque]
    pub open spec fn has_playing(self) -> bool {
        exists|k: int| 0 <= k < TRACK_COUNT && (#[trigger] self.lanes@[k]).state == LaneState::Playing
    }

    #[verifier::opaque]
    pub open spec fn has_stopping(self) -> bool {
        exists|k: int| 0 <= k < TRACK_COUNT && (#[trigger] self.lanes@[k]).stop_at is Some
    }
}

/// The deck with what it acts on.
#[verifier::ext_equal]
pub struct World {
    pub deck: Deck,
    pub jobs: Seq<Option<Job>>,
    /// What AUTO listens with.
    pub ear: Ear,
    pub clock: Clock,
    /// The events said so far.
    pub said: Seq<Event>,
    /// What is to be done to the lanes' effects.
    pub fx: Seq<FxAction>,
}

/// The first free slot of a job table, its length when every slot is taken.
pub open spec fn first_free(jobs: Seq<Option<Job>>) -> int
    decreases jobs.len(),
{
    if jobs.len() == 0 || jobs[0] is None {
        0
    } else {
        1 + first_free(jobs.subrange(1, jobs.len() as int))
    }
}

/// A job table with one more job, in the first free slot.
pub open spec fn with_job(jobs: Seq<Option<Job>>, job: Job) -> Seq<Option<Job>> {
    let k = first_free(jobs);
    if k < jobs.len() {
        jobs.update(k, Some(job))
    } else {
        jobs.push(Some(job))
    }
}

/// A job of the table works on a lane.
pub open spec fn busy(jobs: Seq<Option<Job>>, k: int) -> bool {
    exists|j: int| 0 <= j < jobs.len() && (#[trigger] jobs[j]) is Some && jobs[j]->0.lane == k
}

/// A job table without the jobs on a lane.
pub open spec fn without_lane(jobs: Seq<Option<Job>>, lane: int) -> Seq<Option<Job>> {
    Seq::new(
        jobs.len(),
        |k: int|
            if jobs[k] is Some && jobs[k]->0.lane == lane {
                None
            } else {
                jobs[k]
            },
    )
}

/// The latest frame a job that delays a command on `lane` is done on.
pub open spec fn delay_until(jobs: Seq<Option<Job>>, lane: Option<usize>, needs_free: bool) -> Option<int>
    decreases jobs.len(),
{
    if jobs.len() == 0 {
        None
    } else {
        let before = delay_until(jobs.drop_last(), lane, needs_free);
        match jobs.last() {
            Some(job) if job.delays(lane, needs_free) => Some(
                match before {
                    Some(f) => grid::max_int(f, job.done_at()),
                    None => job.done_at(),
                },
            ),
            _ => before,
        }
    }
}

/// The most bars a later take may have: as many as fit the buffer, and no more than FIXED has.
pub open spec fn most_bars(capacity: Frame, fpb: int) -> int {
    grid::min_int(MAX_FIXED_BARS as int, grid::whole_bars(capacity as int, fpb))
}

/// The most bars a later take may have.
pub fn max_take_bars(capacity: Frame, fpb: Frame) -> (bars: Frame)
    requires
        fpb > 0,
    ensures
        bars == most_bars(capacity, fpb as int),
{
    let fit: Frame = grid::max_whole_bars(capacity, fpb);
    if fit < MAX_FIXED_BARS {
        fit
    } else {
        MAX_FIXED_BARS
    }
}

/// The frames of a take: so many bars, as far as they fit, or the master, or else the buffer. Past a
/// master of whole bars they are whole masters.
#[verifier::opaque]
pub open spec fn take_bound(master: Frame, capacity: Frame, fixed_bars: Option<Frame>, fpb: int) -> int {
    let most = if master > 0 {
        master
    } else {
        capacity
    };
    match fixed_bars {
        Some(bars) => if master > 0 && master as int % fpb == 0 {
            grid::later_bars(bars as int, master as int / fpb, most_bars(capacity, fpb)) * fpb
        } else {
            grid::clamped_bars(bars as int, grid::whole_bars(most as int, fpb)) * fpb
        },
        None => most as int,
    }
}

/// A job is there, and done on a frame.
pub open spec fn done_on(job: Option<Job>, f: Frame) -> bool {
    job is Some && job->0.done_at() == f
}

impl World {
    pub open spec fn lane(self, i: int) -> Lane {
        self.deck.lanes@[i]
    }

    pub open spec fn with_lane(self, i: int, t: Lane) -> World {
        World {
            deck: Deck { lanes: vstd::array::spec_array_update(self.deck.lanes, i, t), ..self.deck },
            ..self
        }
    }

    pub open spec fn with_rec(self, rec: Option<Recorder>) -> World {
        World { deck: Deck { rec, ..self.deck }, ..self }
    }

    pub open spec fn with_clock(self, clock: Clock) -> World {
        World { clock, ..self }
    }

    pub open spec fn say(self, event: Event) -> World {
        World { said: self.said.push(event), ..self }
    }

    /// Frames of a bar at the tempo.
    pub open spec fn fpb(self) -> int {
        grid::bar_frames(self.clock.bpm as int, self.deck.sample_rate as int)
    }

    /// The loop boundary at or after a frame.
    pub open spec fn boundary(self, now: Frame) -> Frame {
        grid::boundary_after(self.deck.anchor as int, self.deck.master as int, now as int) as Frame
    }

    pub open spec fn blank(self) -> bool {
        self.deck.is_blank()
    }

    pub open spec fn any_playing(self) -> bool {
        self.deck.has_playing()
    }

    // ── Releasing and resetting ──────────────────────────────────────────────────────────────────

    /// The recorder slot given up if lane `i` owns it; a first take gives the tempo back.
    pub open spec fn released(self, i: int) -> World {
        if self.deck.rec is None || self.deck.rec->0.lane != i {
            self
        } else {
            let w = self.with_rec(None).with_lane(i, Lane { auto_armed: false, ..self.lane(i) });
            if self.deck.master == 0 {
                w.with_clock(Clock { locked: false, ..self.clock })
            } else {
                w
            }
        }
    }

    pub open spec fn master_reset(self, now: Frame) -> World {
        World {
            deck: Deck { master: 0, anchor: 0, ..self.deck },
            clock: (Clock { locked: false, ..self.clock }).free_running(now),
            ..self
        }
    }

    /// A blank session has no master.
    pub open spec fn reset_if_blank(self, now: Frame) -> World {
        if self.blank() {
            self.master_reset(now)
        } else {
            self
        }
    }

    pub open spec fn job_pushed(self, now: Frame, lane: int, kind: JobKind, visit: Visit) -> World {
        World {
            jobs: with_job(
                self.jobs,
                Job { kind, lane: lane as usize, visit, start: now, progress: 0 },
            ),
            ..self
        }
    }

    /// The previous undo target back from the free buffer.
    pub open spec fn undo_restored(self, i: int, undo_valid: bool, spare_reversed: bool) -> World {
        let t = self.lane(i);
        let w = self.with_lane(
            i,
            Lane { spare: self.deck.free, undo_valid, spare_reversed, ..t },
        );
        World { deck: Deck { free: t.spare, ..w.deck }, ..w }
    }

    /// The loop put back as it was before the overdub, and the undo target from before it.
    #[verifier::opaque]
    pub open spec fn layer_discarded(self, now: Frame, i: int, rec: Recorder) -> World {
        let w = World { jobs: without_lane(self.jobs, i), ..self };
        let master = self.deck.master;
        let span = grid::min_int(rec.summed as int, master as int);
        let t = self.lane(i);
        if span == 0 {
            w.undo_restored(i, rec.prev_undo_valid, rec.prev_spare_reversed)
        } else {
            // From where playback reads next when that lies inside the layer, so it stays ahead.
            let reader = grid::pos_in_loop(now as int, self.deck.anchor as int, master as int);
            let into = (reader - rec.first_pos) % (master as int);
            let off = if into < span {
                into
            } else {
                0
            };
            w.with_lane(i, Lane { undo_valid: rec.prev_undo_valid, ..t }).job_pushed(
                now,
                i,
                JobKind::Restore {
                    src: t.spare,
                    dst: t.live,
                    prev_undo_valid: rec.prev_undo_valid,
                    prev_spare_reversed: rec.prev_spare_reversed,
                },
                Visit { lo: rec.first_pos, span: span as Frame, off: off as Frame, modulus: master },
            )
        }
    }

    // ── Stop and resume ──────────────────────────────────────────────────────────────────────────

    /// The lane silenced now, its loop kept. A capture is aborted: an uncommitted take is dropped, an
    /// overdub layer discarded, a first-take count-in hands the pulse back to free-run.
    #[verifier::opaque]
    pub open spec fn stopped(self, now: Frame, i: int) -> World {
        let t = self.lane(i);
        if t.state == LaneState::Empty {
            self
        } else {
            let discard = t.state == LaneState::Recording;
            let w1 = self.with_lane(i, Lane { stop_at: None, ..t });
            let w2 = if t.is_capturing() {
                w1.aborted(now, i)
            } else {
                w1
            };
            let w3 = w2.settled(i, discard);
            if discard {
                w3.reset_if_blank(now)
            } else {
                w3
            }
        }
    }

    /// A capture aborted: an overdub layer discarded, the recorder released.
    pub open spec fn aborted(self, now: Frame, i: int) -> World {
        let w = self.with_lane(i, Lane { armed: false, ..self.lane(i) });
        let v = if w.deck.rec is Some && w.deck.rec->0.kind == Kind::Overdub {
            w.layer_discarded(now, i, w.deck.rec->0)
        } else {
            w
        };
        v.released(i)
    }

    /// A lane silent on the loop it has, if any.
    pub open spec fn settled(self, i: int, discard: bool) -> World {
        let u = self.lane(i);
        self.with_lane(
            i,
            Lane {
                written: if discard {
                    0
                } else {
                    u.written
                },
                audible: u.own(),
                switch_at: None,
                state: if u.length > 0 {
                    LaneState::Stopped
                } else {
                    LaneState::Empty
                },
                ..u
            },
        )
    }

    /// A master with nothing playing or recording.
    pub open spec fn idle_transport(self) -> bool {
        self.deck.master != 0 && self.deck.rec is None && !self.any_playing()
    }

    /// An idle transport restarts from the top: the grid re-anchors at the press and the pulse with it.
    #[verifier::opaque]
    pub open spec fn restarted_if_idle(self, now: Frame) -> World {
        if !self.idle_transport() {
            self
        } else {
            let bars = grid::max_int(self.deck.master as int / self.fpb(), 1);
            World {
                deck: Deck { anchor: now, ..self.deck },
                clock: self.clock.on_master(now, self.deck.master, bars as Frame, now),
                ..self
            }
        }
    }

    /// A STOPPED lane resumed: from the top on an idle transport, else joining the live phase.
    #[verifier::opaque]
    pub open spec fn resumed(self, now: Frame, i: int, decide: bool) -> World {
        if self.lane(i).length == 0 {
            self
        } else {
            let w = if decide {
                self.restarted_if_idle(now)
            } else {
                self
            };
            w.lane_played(i)
        }
    }

    /// A lane playing what it has.
    pub open spec fn lane_played(self, i: int) -> World {
        let t = self.lane(i);
        self.with_lane(
            i,
            Lane { stop_at: None, audible: t.own(), switch_at: None, state: LaneState::Playing, ..t },
        )
    }

    // ── Takes ────────────────────────────────────────────────────────────────────────────────────

    /// The frames a take may run: the master, the FIXED bar count or the buffer.
    pub open spec fn take_frames(self) -> int {
        take_bound(
            self.deck.master,
            self.deck.capacity,
            if self.deck.fixed_length && (self.deck.master == 0 || !self.deck.retake) {
                Some(self.deck.fixed_bars)
            } else {
                None
            },
            self.fpb(),
        )
    }

    /// The take bounded; RETAKE rolls a known length.
    pub open spec fn end_configured(self) -> World {
        let rec = self.deck.rec->0;
        let roll = self.deck.retake && (self.deck.master > 0 || self.deck.fixed_length);
        self.with_rec(
            Some(
                Recorder {
                    end: Some((rec.start->0 + self.take_frames()) as Frame),
                    roll: if roll {
                        Some(Roll { pass: 1, kept: false })
                    } else {
                        rec.roll
                    },
                    ..rec
                },
            ),
        )
    }

    /// A take started on lane `i`; `seam`: a RETAKE handoff begins exactly where the approved take's pass
    /// ended.
    #[verifier::opaque]
    pub open spec fn recording(self, now: Frame, align: Frame, i: int, seam: Option<Frame>) -> World {
        if self.deck.rec is Some {
            self
        } else {
            if self.deck.master > 0 {
                self.armed_later(now, align, i, seam)
            } else if self.deck.auto_record {
                self.armed_auto(align, i)
            } else {
                self.armed_first(now, align, i)
            }
        }
    }

    /// A lane about to record, nothing captured yet.
    pub open spec fn emptied(self, i: int) -> Lane {
        Lane {
            written: 0,
            armed: false,
            auto_armed: false,
            state: LaneState::Recording,
            period: self.lane(i).length,
            ..self.lane(i)
        }
    }

    /// AUTO replaces only the first-track count-in: no click, no tempo lock, no length until the input
    /// triggers.
    pub open spec fn armed_auto(self, align: Frame, i: int) -> World {
        (World { ear: self.ear.deaf(), ..self }).with_lane(
            i,
            Lane { auto_armed: true, ..self.emptied(i) },
        ).with_rec(Some(Recorder::fresh(i as usize, Kind::Take, align)))
    }

    /// One bar of count-in from the press; the take starts on the downbeat after it.
    pub open spec fn armed_first(self, now: Frame, align: Frame, i: int) -> World {
        let downbeat = Grid::tempo_grid(now, 0, self.clock.bpm, self.deck.sample_rate).beat_at(
            COUNT_IN_BEATS as int,
        );
        self.with_clock(
            Clock { locked: true, ..self.clock.counting_in(now, COUNT_IN_BEATS, now) },
        ).with_lane(i, Lane { armed: true, ..self.emptied(i) }).with_rec(
            Some(
                Recorder {
                    downbeat: Some(downbeat as Frame),
                    start: Some((downbeat + align) as Frame),
                    ..Recorder::fresh(i as usize, Kind::Take, align)
                },
            ),
        ).end_configured()
    }

    /// A later take starts on the next loop boundary, or on its seam.
    pub open spec fn armed_later(self, now: Frame, align: Frame, i: int, seam: Option<Frame>) -> World {
        let start = match seam {
            Some(f) => f,
            None => (self.boundary(now) + align) as Frame,
        };
        self.with_lane(i, Lane { armed: true, ..self.emptied(i) }).with_rec(
            Some(
                Recorder { start: Some(start), ..Recorder::fresh(i as usize, Kind::Take, align) },
            ),
        ).end_configured()
    }

    pub open spec fn retake_plan(self, now: Frame, rec: Recorder) -> RetakeStop {
        grid::retake_stop(
            now + rec.align,
            rec.end->0 as int,
            self.fpb(),
            rec.roll is Some && rec.roll->0.kept,
        )
    }

    /// A first take of `raw` frames makes the master: its completed bars, phase-locked to the count.
    #[verifier::opaque]
    pub open spec fn master_made(self, now: Frame, downbeat: Option<Frame>, raw: Frame) -> World {
        let fpb = self.fpb();
        let bars = grid::commit_bars(raw as int, fpb, self.deck.capacity as int);
        let master = (bars * fpb) as Frame;
        let anchor = grid::anchor_at(downbeat, master as int, now as int) as Frame;
        World {
            deck: Deck { master, anchor, ..self.deck },
            clock: (Clock { locked: true, ..self.clock }).on_master(anchor, master, bars as Frame, now),
            ..self
        }
    }

    /// A take laid on its lane as `fill` says, the lane playing (or stopped).
    #[verifier::opaque]
    pub open spec fn take_laid(self, now: Frame, i: int, stop_playback: bool, fill: TakeFill) -> World {
        let master = self.deck.master;
        let t = self.lane(i);
        let u = self.with_lane(
            i,
            Lane {
                length: master,
                period: master,
                written: master,
                armed: false,
                audible: t.own(),
                state: if stop_playback {
                    LaneState::Stopped
                } else {
                    LaneState::Playing
                },
                ..t
            },
        );
        let lo = fill.kept();
        if lo < master {
            // Start where playback reads next, so the fill stays ahead of it.
            let reader = grid::pos_in_loop(now as int, self.deck.anchor as int, master as int);
            u.job_pushed(
                now,
                i,
                JobKind::Fill { buf: t.live, fill },
                Visit {
                    lo: lo as Frame,
                    span: (master - lo) as Frame,
                    off: (if reader >= lo {
                        reader - lo
                    } else {
                        0
                    }) as Frame,
                    modulus: master,
                },
            )
        } else {
            u
        }
    }

    /// Whole masters a later take of `raw` frames spans.
    pub open spec fn loops_of(self, raw: Frame) -> int {
        raw as int / self.deck.master as int
    }

    /// A later take of `raw` frames makes the master grow: it spans whole masters, two at least, of whole
    /// bars.
    pub open spec fn multiplies(self, raw: Frame) -> bool {
        self.deck.master > 0 && self.deck.master as int % self.fpb() == 0 && self.loops_of(raw) >= 2
    }

    /// The rest of a lane's buffer filled with the loop it holds.
    pub open spec fn repeated(self, now: Frame, k: int, buf: usize) -> World {
        let t = self.lane(k);
        self.job_pushed(
            now,
            k,
            JobKind::Fill { buf, fill: TakeFill { raw: t.period, period: t.period, master: t.length } },
            Visit { lo: t.period, span: (t.length - t.period) as Frame, off: 0, modulus: t.length },
        )
    }

    /// A committed lane that holds a shorter loop than its length, with no job on it, starts to repeat it:
    /// its undo target's buffer, then its own.
    #[verifier::opaque]
    pub open spec fn caught_up(self, now: Frame, k: int) -> World {
        let t = self.lane(k);
        if t.is_committed() && t.period < t.length && !busy(self.jobs, k) {
            let w = if t.undo_valid {
                self.repeated(now, k, t.spare)
            } else {
                self
            };
            w.repeated(now, k, t.live)
        } else {
            self
        }
    }

    /// The committed lanes from `k` on, but lane `i`, as long as the master.
    pub open spec fn lengthened(self, now: Frame, k: int, i: int) -> World
        decreases TRACK_COUNT - k,
    {
        if k >= TRACK_COUNT {
            self
        } else {
            let t = self.lane(k);
            let w = if k != i && t.is_committed() {
                self.with_lane(k, Lane { length: self.deck.master, ..t }).caught_up(now, k)
            } else {
                self
            };
            w.lengthened(now, k + 1, i)
        }
    }

    /// The master `loops` times as long, anchored on the boundary its longest loop's take began at (or the
    /// last one before), so that no other loop's phase moves.
    #[verifier::opaque]
    pub open spec fn multiplied(self, now: Frame, downbeat: int, loops: int) -> World {
        let old = self.deck.master as int;
        let master = (loops * old) as Frame;
        let anchor = (self.deck.anchor + (downbeat - self.deck.anchor) / old * old) as Frame;
        World {
            deck: Deck { master, anchor, ..self.deck },
            clock: self.clock.on_master(anchor, master, (master as int / self.fpb()) as Frame, now),
            ..self
        }
    }

    /// The take committed: the first one makes the master, one past the master multiplies it.
    pub open spec fn take_committed(self, now: Frame, i: int, rec: Recorder) -> World {
        let raw = grid::min_int(self.lane(i).written as int, rec.end->0 - rec.start->0) as Frame;
        if self.deck.master == 0 {
            let w = self.master_made(now, rec.downbeat, raw);
            w.take_laid(now, i, rec.stop_playback, TakeFill::first_fill(raw, w.deck.master))
        } else if self.multiplies(raw) {
            let w = self.multiplied(now, rec.start->0 - rec.align, self.loops_of(raw));
            w.take_laid(
                now,
                i,
                rec.stop_playback,
                TakeFill::later_fill(raw, self.fpb() as Frame, w.deck.master),
            ).lengthened(now, 0, i)
        } else {
            self.take_laid(
                now,
                i,
                rec.stop_playback,
                TakeFill::later_fill(raw, self.fpb() as Frame, self.deck.master),
            )
        }
    }

    /// A take or layer whose window saw an input gap discarded, what was there before kept.
    pub open spec fn rejected(self, now: Frame, i: int, rec: Recorder) -> World {
        let overdub = rec.kind == Kind::Overdub;
        let w = self.say(Event::TakeRejected { frame: now, lane: i as u8, overdub });
        if overdub {
            let v = w.layer_discarded(now, i, rec);
            v.with_lane(
                i,
                Lane {
                    state: if rec.stop_playback {
                        LaneState::Stopped
                    } else {
                        LaneState::Playing
                    },
                    ..v.lane(i)
                },
            )
        } else {
            w.with_lane(
                i,
                Lane { armed: false, written: 0, length: 0, period: 0, state: LaneState::Empty, ..w.lane(i) },
            )
        }
    }

    /// The capture committed, or rejected where damaged.
    pub open spec fn closed(self, now: Frame, i: int, rec: Recorder) -> World {
        if rec.damaged {
            self.rejected(now, i, rec)
        } else if rec.kind == Kind::Overdub {
            self.with_lane(
                i,
                Lane {
                    state: if rec.stop_playback {
                        LaneState::Stopped
                    } else {
                        LaneState::Playing
                    },
                    ..self.lane(i)
                },
            )
        } else {
            self.take_committed(now, i, rec)
        }
    }

    /// The capture window closed: committed (or a damaged one rejected), the recorder released, and
    /// handed on to a lane that approved a RETAKE.
    #[verifier::opaque]
    pub open spec fn finished(self, now: Frame, align: Frame, i: int) -> World {
        if self.deck.rec is None || self.deck.rec->0.lane != i {
            self
        } else {
            let rec = self.deck.rec->0;
            let w2 = self.closed(now, i, rec).released(i).reset_if_blank(now);
            if rec.handoff is Some && rec.end is Some && w2.lane(i).state == LaneState::Playing {
                w2.recording(now, align, rec.handoff->0 as int, rec.end)
            } else {
                w2
            }
        }
    }

    /// The rolling take reached its window end: the pass set aside when it is clean (a damaged pass
    /// drops the older kept pass too: approving must never hand back a pass the player did not just
    /// play) and the whole take slid one pass forward.
    #[verifier::opaque]
    pub open spec fn pass_completed(self, now: Frame) -> World {
        let rec = self.deck.rec->0;
        let i = rec.lane as int;
        let frames = rec.end->0 - rec.start->0;
        let roll = rec.roll->0;
        let clean = !rec.damaged;
        let w = if clean {
            self.live_swapped(i)
        } else {
            self.say(Event::PassDropped { frame: now, lane: i as u8, pass: roll.pass })
        };
        w.pass_slid(
            i,
            Recorder {
                roll: Some(Roll { pass: roll.pass.wrapping_add(1), kept: clean }),
                damaged: false,
                start: rec.end,
                end: Some((rec.end->0 + frames) as Frame),
                downbeat: match rec.downbeat {
                    Some(d) => Some((d + frames) as Frame),
                    None => None,
                },
                ..rec
            },
        )
    }

    /// A lane's live buffer for the free one.
    pub open spec fn live_swapped(self, i: int) -> World {
        let t = self.lane(i);
        let v = self.with_lane(i, Lane { live: self.deck.free, ..t });
        World { deck: Deck { free: t.live, ..v.deck }, ..v }
    }

    /// The recorder on its next pass, nothing of it captured yet.
    pub open spec fn pass_slid(self, i: int, rec: Recorder) -> World {
        let u = self.lane(i);
        self.with_lane(i, Lane { audible: u.own(), written: 0, ..u }).with_rec(Some(rec))
    }

    /// AUTO: the retained onset began at input frame `onset`. The grid anchors where it was performed:
    /// `align` frames earlier.
    pub open spec fn auto_begun(self, now: Frame, align: Frame, onset: Frame) -> World {
        let rec = self.deck.rec->0;
        let downbeat = (onset - align) as Frame;
        let i = rec.lane as int;
        let w = self.with_rec(
            Some(Recorder { align, start: Some(onset), downbeat: Some(downbeat), ..rec }),
        ).with_lane(i, Lane { auto_armed: false, ..self.lane(i) }).with_clock(
            Clock { locked: true, ..self.clock },
        ).end_configured();
        w.with_clock(w.clock.auto_recording(downbeat, now))
    }

    /// A stop gesture on a capture: the window end tightened once (a repeated gesture cannot extend it).
    #[verifier::opaque]
    pub open spec fn capture_stopped(self, now: Frame, align: Frame, i: int) -> World {
        let t = self.lane(i);
        if t.auto_armed || t.armed {
            // Nothing retained yet: the count-in, the boundary arm or AUTO is cancelled.
            self.stopped(now, i)
        } else if self.deck.rec is None || self.deck.rec->0.lane != i {
            self
        } else {
            let r0 = self.deck.rec->0;
            let plan = self.retake_plan(now, r0);
            let rec = Recorder { roll: None, ..r0 };
            if r0.roll is Some && plan == RetakeStop::KeepLast {
                self.pass_approved(i, rec).finished(now, align, i)
            } else {
                let end = if r0.roll is Some && plan == RetakeStop::FinishPass {
                    // It ends on its own pass edge.
                    rec.end->0
                } else {
                    self.stop_target(now, t, rec)
                };
                let w = self.window_cut(rec, end);
                if w.deck.rec->0.end->0 <= now {
                    w.finished(now, align, i)
                } else {
                    w
                }
            }
        }
    }

    /// The kept pass in place of the one in flight, whose damage dies with it.
    pub open spec fn pass_approved(self, i: int, rec: Recorder) -> World {
        let t = self.lane(i);
        let w = self.with_lane(
            i,
            Lane {
                live: self.deck.free,
                audible: Audible { buf: self.deck.free, reversed: t.reversed },
                written: (rec.end->0 - rec.start->0) as Frame,
                ..t
            },
        );
        (World { deck: Deck { free: t.live, ..w.deck }, ..w }).with_rec(
            Some(Recorder { damaged: false, ..rec }),
        )
    }

    /// The recorder's window ending at `end`, or where it ended already.
    pub open spec fn window_cut(self, rec: Recorder, end: Frame) -> World {
        self.with_rec(
            Some(
                Recorder {
                    end: Some(
                        match rec.end {
                            Some(e) => grid::min_int(e as int, end as int) as Frame,
                            None => end,
                        },
                    ),
                    ..rec
                },
            ),
        )
    }

    /// Where a stop gesture ends a capture: a take on whole bars from musical time, with the
    /// quarter-beat grace. A first take shorter than a bar keeps its audio through the press and pads to
    /// one bar at the commit.
    pub open spec fn stop_target(self, now: Frame, t: Lane, rec: Recorder) -> Frame {
        let press = (now + rec.align) as Frame;
        let fpb = self.fpb();
        if t.state != LaneState::Recording {
            press
        } else if self.deck.master == 0 {
            let elapsed = match rec.downbeat {
                Some(d) => now - d,
                None => 0,
            };
            match grid::free_stop(elapsed, fpb, self.deck.capacity as int) {
                Some(target) => (rec.start->0 + target) as Frame,
                None => press,
            }
        } else if self.deck.master as int % fpb == 0 {
            (rec.start->0 + grid::later_stop(
                now - (rec.start->0 - rec.align),
                fpb,
                self.deck.master as int / fpb,
                most_bars(self.deck.capacity, fpb),
            )) as Frame
        } else {
            press
        }
    }

    // ── Overdub ──────────────────────────────────────────────────────────────────────────────────

    #[verifier::opaque]
    pub open spec fn overdubbing(self, now: Frame, align: Frame, i: int) -> World {
        let t = self.lane(i);
        if self.deck.rec is Some || t.reversed || self.deck.master == 0 {
            self
        } else {
            let master = self.deck.master;
            let first_pos = grid::pos_in_loop(now as int, self.deck.anchor as int, master as int) as Frame;
            let w = self.with_lane(
                i,
                Lane {
                    audible: t.own(),
                    switch_at: None,
                    spare: self.deck.free,
                    undo_valid: true,
                    spare_reversed: t.reversed,
                    state: LaneState::Overdubbing,
                    ..t
                },
            );
            World { deck: Deck { free: t.spare, ..w.deck }, ..w }.with_rec(
                Some(
                    Recorder {
                        prev_undo_valid: t.undo_valid,
                        prev_spare_reversed: t.spare_reversed,
                        start: Some((now + align) as Frame),
                        first_pos,
                        ..Recorder::fresh(i as usize, Kind::Overdub, align)
                    },
                ),
            ).job_pushed(
                now,
                i,
                JobKind::Copy { src: t.live, dst: self.deck.free },
                Visit { lo: 0, span: master, off: first_pos, modulus: master },
            )
        }
    }

    // ── Commands ─────────────────────────────────────────────────────────────────────────────────

    /// Until when a command on `lane` waits for block jobs.
    pub open spec fn wait(self, lane: Option<usize>, needs_free: bool) -> Option<int> {
        delay_until(self.jobs, lane, needs_free)
    }

    pub open spec fn wait_answer(self, lane: Option<usize>, needs_free: bool) -> Applied {
        match self.wait(lane, needs_free) {
            Some(f) => Applied::WaitUntil(f as Frame),
            None => Applied::Done,
        }
    }

    /// A RETAKE take is rolling: past its downbeat, not yet approved or stopped.
    pub open spec fn rolling(self) -> bool {
        self.deck.rec is Some && self.deck.rec->0.roll is Some && !self.lane(self.deck.rec->0.lane as int).armed
    }

    pub open spec fn rec_dub_answer(self, i: int) -> Applied {
        let t = self.lane(i);
        if t.stop_at is Some || t.state == LaneState::Stopped || t.is_capturing() || t.state == LaneState::Playing && (
        self.deck.rec is Some || t.reversed) {
            Applied::Done
        } else {
            self.wait_answer(Some(i as usize), true)
        }
    }

    pub open spec fn rec_dubbed(self, now: Frame, align: Frame, i: int) -> World {
        let t = self.lane(i);
        if t.stop_at is Some || t.state == LaneState::Stopped || self.rec_dub_answer(i) != Applied::Done {
            self
        } else if t.state == LaneState::Empty {
            // RETAKE: REC on another lane approves the rolling take; this lane records from its pass
            // end. With nothing kept yet the press is ignored, like any second recorder.
            if self.rolling() {
                let rec = self.deck.rec->0;
                if self.retake_plan(now, rec) != RetakeStop::StopNow {
                    self.with_rec(Some(Recorder { handoff: Some(i as usize), ..rec })).capture_stopped(
                        now,
                        align,
                        rec.lane as int,
                    )
                } else {
                    self
                }
            } else {
                self.recording(now, align, i, None)
            }
        } else if t.is_capturing() {
            self.capture_stopped(now, align, i)
        } else {
            self.overdubbing(now, align, i)
        }
    }

    pub open spec fn play_stop_answer(self, i: int) -> Applied {
        if self.lane(i).state == LaneState::Stopped {
            // Only a resume waits: playback would start reading where a job has not been yet.
            self.wait_answer(Some(i as usize), false)
        } else {
            Applied::Done
        }
    }

    pub open spec fn play_stopped(self, now: Frame, align: Frame, i: int) -> World {
        let t = self.lane(i);
        if t.state == LaneState::Empty || self.play_stop_answer(i) != Applied::Done {
            self
        } else if t.stop_at is Some {
            // A second press silences now.
            self.stopped(now, i)
        } else if t.is_capturing() {
            let w = if self.deck.rec is Some {
                self.with_rec(Some(Recorder { stop_playback: true, ..self.deck.rec->0 }))
            } else {
                self
            };
            w.capture_stopped(now, align, i)
        } else if t.state == LaneState::Playing {
            if self.deck.loop_end_stop {
                self.with_lane(i, Lane { stop_at: Some(self.boundary(now)), ..t })
            } else {
                self.stopped(now, i)
            }
        } else {
            self.resumed(now, i, true)
        }
    }

    /// Playback follows the lane's logical buffer: now when stopped, on the next boundary when playing.
    pub open spec fn followed(self, now: Frame, i: int) -> World {
        let t = self.lane(i);
        self.with_lane(
            i,
            if t.state == LaneState::Playing {
                Lane { switch_at: Some(self.boundary(now)), ..t }
            } else {
                Lane { audible: t.own(), switch_at: None, ..t }
            },
        )
    }

    pub open spec fn may_undo(self, i: int) -> bool {
        let t = self.lane(i);
        t.undo_valid && t.stop_at is None && t.is_committed() && self.deck.master != 0
    }

    pub open spec fn undo_answer(self, i: int) -> Applied {
        if self.may_undo(i) {
            self.wait_answer(Some(i as usize), false)
        } else {
            Applied::Done
        }
    }

    pub open spec fn undone(self, now: Frame, i: int) -> World {
        if !self.may_undo(i) || self.undo_answer(i) != Applied::Done {
            self
        } else {
            let t = self.lane(i);
            self.with_lane(
                i,
                Lane {
                    live: t.spare,
                    spare: t.live,
                    reversed: t.spare_reversed,
                    spare_reversed: t.reversed,
                    ..t
                },
            ).followed(now, i)
        }
    }

    pub open spec fn may_reverse(self, i: int) -> bool {
        let t = self.lane(i);
        t.stop_at is None && t.is_committed() && self.deck.master != 0
    }

    pub open spec fn reverse_answer(self, i: int) -> Applied {
        if self.may_reverse(i) {
            self.wait_answer(Some(i as usize), false)
        } else {
            Applied::Done
        }
    }

    pub open spec fn turned(self, now: Frame, i: int) -> World {
        if !self.may_reverse(i) || self.reverse_answer(i) != Applied::Done {
            self
        } else {
            let t = self.lane(i);
            self.with_lane(i, Lane { reversed: !t.reversed, ..t }).followed(now, i)
        }
    }

    pub open spec fn copy_answer(self, i: int) -> Applied {
        if self.lane(i).is_committed() && self.first_target(0) is Some {
            self.wait_answer(Some(i as usize), false)
        } else {
            Applied::Done
        }
    }

    /// Lane `k` may take a copy: it is EMPTY, and the recorder is neither on it nor about to be handed to it.
    pub open spec fn copy_target(self, k: int) -> bool {
        &&& self.lane(k).state == LaneState::Empty
        &&& !(self.deck.rec is Some && (self.deck.rec->0.lane == k || self.deck.rec->0.handoff == Some(
            k as usize,
        )))
    }

    /// The first lane from `k` on that may take a copy.
    pub open spec fn first_target(self, k: int) -> Option<int>
        decreases TRACK_COUNT - k,
    {
        if k >= TRACK_COUNT {
            None
        } else if self.copy_target(k) {
            Some(k)
        } else {
            self.first_target(k + 1)
        }
    }

    pub open spec fn copied(self, now: Frame, i: int) -> World {
        let src = self.lane(i);
        if !src.is_committed() || self.copy_answer(i) != Applied::Done {
            self
        } else {
            match self.first_target(0) {
                None => self,
                Some(j) => {
                    let master = self.deck.master;
                    let t = self.lane(j);
                    let w = self.with_lane(
                        j,
                        Lane {
                            length: master,
                            period: master,
                            written: master,
                            reversed: src.reversed,
                            audible: Audible { buf: t.live, reversed: src.reversed },
                            volume: src.volume,
                            muted: src.muted,
                            state: LaneState::Stopped,
                            ..t
                        },
                    );
                    World {
                        fx: w.fx.push(FxAction::Copy { from: i as u8, to: j as u8 }),
                        ..w
                    }.job_pushed(
                        now,
                        j,
                        JobKind::LaneCopy {
                            src: src.live,
                            dst: t.live,
                            from: i as usize,
                            to: j as usize,
                            resume: src.state == LaneState::Playing && src.stop_at is None,
                        },
                        Visit { lo: 0, span: master, off: 0, modulus: master },
                    )
                },
            }
        }
    }

    pub open spec fn clear_answer(self, i: int) -> Applied {
        if self.lane(i).state == LaneState::Empty {
            Applied::Done
        } else {
            self.wait_answer(Some(i as usize), false)
        }
    }

    pub open spec fn cleared_now(self, now: Frame, i: int) -> World {
        let w = self.released(i);
        let t = w.lane(i);
        World { fx: w.fx.push(FxAction::Reset { lane: i as u8 }), ..w }.with_lane(
            i,
            Lane::blank(t.live, t.spare),
        ).reset_if_blank(now)
    }

    pub open spec fn cleared(self, now: Frame, i: int) -> World {
        if self.lane(i).state == LaneState::Empty || self.clear_answer(i) != Applied::Done {
            self
        } else {
            self.cleared_now(now, i)
        }
    }

    /// The lanes from `k` on that `stopped` says resumed, without another decision to restart.
    pub open spec fn resumed_from(self, now: Frame, k: int, stopped: Seq<bool>) -> World
        decreases TRACK_COUNT - k,
    {
        if k >= TRACK_COUNT {
            self
        } else {
            let w = if stopped[k] {
                self.resumed(now, k, false)
            } else {
                self
            };
            w.resumed_from(now, k + 1, stopped)
        }
    }

    pub open spec fn stopped_lanes(self) -> Seq<bool> {
        Seq::new(TRACK_COUNT as nat, |k: int| self.lane(k).state == LaneState::Stopped)
    }

    pub open spec fn play_all_answer(self) -> Applied {
        if self.stopped_lanes().contains(true) {
            self.wait_answer(None, false)
        } else {
            Applied::Done
        }
    }

    pub open spec fn all_played(self, now: Frame) -> World {
        let stopped = self.stopped_lanes();
        if self.play_all_answer() != Applied::Done || !stopped.contains(true) {
            self
        } else {
            self.restarted_if_idle(now).resumed_from(now, 0, stopped)
        }
    }

    /// The lanes from `k` on stopped: PLAYING ones at `when`, captures committed and stopped.
    pub open spec fn stopped_from(self, now: Frame, align: Frame, k: int, when: Option<Frame>) -> World
        decreases TRACK_COUNT - k,
    {
        if k >= TRACK_COUNT {
            self
        } else {
            let t = self.lane(k);
            let w = if t.state == LaneState::Playing {
                match when {
                    Some(at) => self.with_lane(k, Lane { stop_at: Some(at), ..t }),
                    None => self.stopped(now, k),
                }
            } else if t.is_capturing() {
                self.play_stopped(now, align, k)
            } else {
                self
            };
            w.stopped_from(now, align, k + 1, when)
        }
    }

    pub open spec fn any_stopping(self) -> bool {
        self.deck.has_stopping()
    }

    /// Every live lane stopped: PLAYING honours the loop-end stop, captures commit and stop at once.
    pub open spec fn all_stopped(self, now: Frame, align: Frame) -> World {
        self.stopped_from(
            now,
            align,
            0,
            if self.deck.loop_end_stop && !self.any_stopping() {
                Some(self.boundary(now))
            } else {
                None
            },
        )
    }

    pub open spec fn cleared_from(self, now: Frame, k: int) -> World
        decreases TRACK_COUNT - k,
    {
        if k >= TRACK_COUNT {
            self
        } else {
            self.cleared_now(now, k).cleared_from(now, k + 1)
        }
    }

    pub open spec fn all_cleared(self, now: Frame) -> World {
        if self.wait_answer(None, false) != Applied::Done {
            self
        } else {
            self.cleared_from(now, 0).master_reset(now)
        }
    }

    pub open spec fn with_selected(self, i: int) -> World {
        World {
            deck: Deck {
                clear_armed: None,
                selected: grid::min_int(i, TRACK_COUNT - 1) as usize,
                ..self.deck
            },
            ..self
        }
    }

    // ── Hands-free actions ───────────────────────────────────────────────────────────────────────

    pub open spec fn info(self, i: int) -> LaneInfo {
        let t = self.lane(i);
        let rec = self.deck.rec;
        LaneInfo {
            state: t.state,
            length: t.length,
            armed: t.armed,
            auto_armed: t.auto_armed,
            can_undo: t.undo_valid && t.is_committed(),
            can_reverse: t.is_committed(),
            reversed: t.reversed,
            stop_at: t.stop_at,
            retake_pass: if rec is Some && rec->0.lane == i && !t.armed && rec->0.roll is Some {
                rec->0.roll->0.pass
            } else {
                0
            },
        }
    }

    pub open spec fn other_capturing(self, i: int) -> bool {
        exists|j: int| 0 <= j < TRACK_COUNT && j != i && (#[trigger] self.deck.lanes@[j]).is_capturing()
    }

    /// Why the REC/DUB core of lane `i` may not act now, if so.
    pub open spec fn rec_dub_refusal(self, i: int) -> Option<Refusal> {
        let t = self.lane(i);
        if t.is_capturing() {
            None
        } else if t.stop_at is Some {
            Some(Refusal::Stopping)
        } else if t.state == LaneState::Stopped {
            Some(Refusal::PlayFirst)
        } else if t.state == LaneState::Playing && t.reversed {
            Some(Refusal::Reversed)
        } else if self.other_capturing(i) && !(t.state == LaneState::Empty && self.rolling()) {
            Some(Refusal::OtherRecording)
        } else {
            None
        }
    }

    pub open spec fn clear_confirmed(self, now: Frame, i: int) -> bool {
        self.deck.clear_armed is Some && self.deck.clear_armed->0.lane == i && (now - self.deck.clear_armed->0.at)
            * 1000 < CONFIRM_WINDOW_MS * self.deck.sample_rate
    }

    /// Why a hands-free press on lane `i` does nothing, if so.
    pub open spec fn refusal(self, now: Frame, i: int, action: Action) -> Option<Refusal> {
        match action {
            Action::RecDub => self.rec_dub_refusal(i),
            Action::PlayStop => if self.lane(i).state == LaneState::Empty {
                Some(Refusal::Empty)
            } else {
                None
            },
            Action::Undo => if !self.info(i).can_undo {
                Some(Refusal::NoUndo)
            } else if self.lane(i).stop_at is Some {
                Some(Refusal::Stopping)
            } else {
                None
            },
            Action::Clear => if self.lane(i).state == LaneState::Empty {
                Some(Refusal::NoClear)
            } else if !self.clear_confirmed(now, i) {
                Some(Refusal::ConfirmClear)
            } else {
                None
            },
            _ => None,
        }
    }

    /// What a hands-free press that is not refused answers.
    pub open spec fn act_answer(self, i: int, action: Action) -> Applied {
        match action {
            Action::RecDub => self.rec_dub_answer(i),
            Action::PlayStop => self.play_stop_answer(i),
            Action::Undo => self.undo_answer(i),
            Action::Clear => self.wait_answer(Some(i as usize), false),
            Action::PlayAll => self.play_all_answer(),
            _ => Applied::Done,
        }
    }

    /// What a hands-free press that is not refused does.
    #[verifier::opaque]
    pub open spec fn act(self, now: Frame, align: Frame, i: int, action: Action) -> World {
        match action {
            Action::RecDub => self.rec_dubbed(now, align, i),
            Action::PlayStop => self.play_stopped(now, align, i),
            Action::Undo => self.undone(now, i),
            Action::Clear => if self.act_answer(i, action) != Applied::Done {
                self
            } else {
                World { deck: Deck { clear_armed: None, ..self.deck }, ..self }.cleared_now(now, i)
            },
            Action::NextTrack => self.with_selected((i + 1) % (TRACK_COUNT as int)),
            Action::PrevTrack => self.with_selected((i + TRACK_COUNT - 1) % (TRACK_COUNT as int)),
            Action::PlayAll => self.all_played(now),
            Action::StopAll => self.all_stopped(now, align),
        }
    }

    pub open spec fn action_answer(self, now: Frame, i: int, action: Action) -> Applied {
        if self.refusal(now, i, action) is Some {
            Applied::Done
        } else {
            self.act_answer(i, action)
        }
    }

    /// A hands-free press on lane `i`: the UI's gates, spoken as refusals.
    pub open spec fn acted(self, now: Frame, align: Frame, i: int, action: Action) -> World {
        let w = if action == Action::Clear {
            self
        } else {
            World { deck: Deck { clear_armed: None, ..self.deck }, ..self }
        };
        match self.refusal(now, i, action) {
            Some(reason) => {
                let v = if reason == Refusal::ConfirmClear {
                    World {
                        deck: Deck { clear_armed: Some(ClearArm { lane: i as usize, at: now }), ..w.deck },
                        ..w
                    }
                } else {
                    w
                };
                v.say(Event::Refused { frame: now, lane: i as u8, reason })
            },
            None => w.act(now, align, i, action),
        }
    }

    // ── Time ─────────────────────────────────────────────────────────────────────────────────────

    /// Something is scheduled for frame `f`: a window edge, a loop-end stop, a boundary swap, a job
    /// completing.
    pub open spec fn scheduled(self, f: Frame) -> bool {
        ||| exists|k: int| 0 <= k < TRACK_COUNT && (#[trigger] self.deck.lanes@[k]).expects(f)
        ||| self.edge_at(f)
        ||| exists|k: int| 0 <= k < self.jobs.len() && done_on(#[trigger] self.jobs[k], f)
    }

    /// The recorder's window starts (its lane armed for it) or ends at a frame.
    pub open spec fn edge_at(self, f: Frame) -> bool {
        self.deck.rec is Some && (self.deck.rec->0.end == Some(f) || self.deck.rec->0.start == Some(f) && self.lane(
            self.deck.rec->0.lane as int,
        ).armed)
    }

    /// The swap and the loop-end stop of a lane, where due.
    #[verifier::opaque]
    pub open spec fn lane_due(self, now: Frame, k: int) -> World {
        let t = self.lane(k);
        let w = if t.switch_at is Some && t.switch_at->0 <= now {
            self.swapped(k)
        } else {
            self
        };
        if t.stop_at is Some && t.stop_at->0 <= now {
            w.stopped(now, k)
        } else {
            w
        }
    }

    /// A lane that plays its own buffer now.
    pub open spec fn swapped(self, i: int) -> World {
        let t = self.lane(i);
        self.with_lane(i, Lane { audible: t.own(), switch_at: None, ..t })
    }

    /// The swaps and loop-end stops of the lanes from `k` on that are due.
    pub open spec fn lanes_due(self, now: Frame, k: int) -> World
        decreases TRACK_COUNT - k,
    {
        if k >= TRACK_COUNT {
            self
        } else {
            self.lane_due(now, k).lanes_due(now, k + 1)
        }
    }

    /// What a job's end brings about.
    #[verifier::opaque]
    pub open spec fn job_brought(self, now: Frame, job: Job) -> World {
        match job.kind {
            JobKind::Restore { prev_undo_valid, prev_spare_reversed, .. } => self.undo_restored(
                job.lane as int,
                prev_undo_valid,
                prev_spare_reversed,
            ),
            JobKind::LaneCopy { from, to, resume, .. } => {
                let w = self.say(Event::Copied { frame: now, from: from as u8, to: to as u8 });
                if resume && w.lane(to as int).state == LaneState::Stopped {
                    w.resumed(now, to as int, true)
                } else {
                    w
                }
            },
            JobKind::Fill { buf, fill } => self.filled(job.lane as int, buf, fill.master),
            JobKind::Copy { .. } => self,
        }
    }

    /// A lane's own buffer filled: it plays the loop that it holds now.
    pub open spec fn filled(self, k: int, buf: usize, master: Frame) -> World {
        let t = self.lane(k);
        if t.is_committed() && t.live == buf && t.length as int % master as int == 0 {
            self.with_lane(k, Lane { period: master, ..t })
        } else {
            self
        }
    }

    /// The job in slot `k` completed, and out of the table; a lane that holds less than its length goes on
    /// from there.
    #[verifier::opaque]
    pub open spec fn job_due(self, now: Frame, k: int) -> World {
        let job = self.jobs[k]->0;
        let w = self.job_brought(now, job);
        World { jobs: w.jobs.update(k, None), ..w }.caught_up(now, job.lane as int)
    }

    /// Slot `k` holds a job that is done.
    pub open spec fn job_done(self, now: Frame, k: int) -> bool {
        self.jobs[k] is Some && self.jobs[k]->0.done_at() <= now
    }

    /// The jobs from slot `k` on that are done, out of a table of `slots`.
    pub open spec fn jobs_due(self, now: Frame, k: int, slots: int) -> World
        decreases slots - k,
    {
        if k >= slots {
            self
        } else {
            let next = if self.job_done(now, k) {
                self.job_due(now, k)
            } else {
                self
            };
            next.jobs_due(now, k + 1, slots)
        }
    }

    /// An armed lane whose window starts now records.
    pub open spec fn opened(self, now: Frame) -> World {
        let rec = self.deck.rec->0;
        let i = rec.lane as int;
        let t = self.lane(i);
        if t.armed && rec.start is Some && rec.start->0 <= now {
            self.with_lane(i, Lane { armed: false, written: 0, ..t })
        } else {
            self
        }
    }

    /// One edge of the recorder's window that is due.
    #[verifier::opaque]
    pub open spec fn edge_due(self, now: Frame, align: Frame) -> World {
        let rec = self.deck.rec->0;
        let w = self.opened(now);
        if !self.window_ended(now) {
            w
        } else if rec.roll is Some {
            w.pass_completed(now)
        } else {
            w.finished(now, align, rec.lane as int)
        }
    }

    /// The recorder's window has ended.
    pub open spec fn window_ended(self, now: Frame) -> bool {
        let rec = self.deck.rec->0;
        rec.end is Some && rec.end->0 <= now && !self.lane(rec.lane as int).auto_armed
    }

    /// The recorder's edges that are due: a commit can hand the recorder on at the very same frame, so
    /// up to `rounds` windows end.
    pub open spec fn edges_due(self, now: Frame, align: Frame, rounds: nat) -> World
        decreases rounds,
    {
        if rounds == 0 || self.deck.rec is None {
            self
        } else if self.window_ended(now) {
            self.edge_due(now, align).edges_due(now, align, (rounds - 1) as nat)
        } else {
            self.edge_due(now, align)
        }
    }

    /// Everything scheduled for `now`.
    pub open spec fn due(self, now: Frame, align: Frame) -> World {
        let w = self.lanes_due(now, 0);
        w.jobs_due(now, 0, w.jobs.len() as int).edges_due(now, align, 4)
    }

    /// Until when lane `i` keeps the transport audibly alive.
    pub open spec fn alive_until(self, i: int) -> Option<Frame> {
        let t = self.lane(i);
        let rec = self.deck.rec;
        if rec is Some && rec->0.stop_playback && rec->0.lane == i && self.deck.master > 0 {
            None
        } else if t.state == LaneState::Recording && !t.auto_armed || t.state == LaneState::Overdubbing {
            Some(i64::MAX)
        } else if t.state == LaneState::Playing {
            match t.stop_at {
                Some(at) => Some(at),
                None => Some(i64::MAX),
            }
        } else {
            None
        }
    }

    /// Until when the lanes before `k` keep the transport audibly alive: the latest of them.
    pub open spec fn alive_before(self, k: int) -> Option<Frame>
        decreases k,
    {
        if k <= 0 {
            None
        } else {
            match (self.alive_before(k - 1), self.alive_until(k - 1)) {
                (Some(f), Some(g)) => Some(if f < g {
                    g
                } else {
                    f
                }),
                (None, g) => g,
                (f, None) => f,
            }
        }
    }

    /// Until when the transport is audibly alive.
    pub open spec fn transport_end(self) -> Option<Frame> {
        self.alive_before(TRACK_COUNT as int)
    }

    /// The beats due at `now` sounded, at most `rounds` of them.
    pub open spec fn beaten(self, now: Frame, rounds: nat) -> World
        decreases rounds,
    {
        if rounds == 0 {
            self
        } else {
            let until = self.transport_end();
            let w = self.with_clock(self.clock.after_beat(now, until));
            match self.clock.due_beat(now, until) {
                None => w,
                Some(beat) => w.say(
                    Event::Beat {
                        frame: now,
                        beat_in_bar: beat.beat_in_bar,
                        count_left: beat.count_left,
                        clicked: beat.clicked,
                    },
                ).beaten(now, (rounds - 1) as nat),
            }
        }
    }

    /// An input gap just before `frame`: a capture whose window it falls inside is damaged; AUTO drops
    /// the history it can no longer join.
    pub open spec fn gapped(self, frame: Frame) -> World {
        if self.deck.rec is None {
            self
        } else {
            let rec = self.deck.rec->0;
            if self.lane(rec.lane as int).auto_armed {
                World { ear: self.ear.deaf(), ..self }
            } else if rec.start is Some && frame > rec.start->0 && (rec.end is None || frame < rec.end->0) {
                self.with_rec(Some(Recorder { damaged: true, ..rec }))
            } else {
                self
            }
        }
    }

    // ── Audio ────────────────────────────────────────────────────────────────────────────────────

    /// The recorder's lane.
    pub open spec fn rec_lane(self) -> Lane {
        self.lane(self.deck.rec->0.lane as int)
    }

    /// The input frames a block from `f0` gives the recorder's window, first and past the last.
    pub open spec fn window(self, f0: Frame, frames: int) -> (int, int) {
        let rec = self.deck.rec->0;
        (
            grid::max_int(f0 as int, rec.start->0 as int),
            match rec.end {
                Some(e) => grid::min_int(f0 + frames, e as int),
                None => f0 + frames,
            },
        )
    }

    /// The recorder writes some of a block.
    pub open spec fn captures(self, f0: Frame, frames: int) -> bool {
        &&& self.deck.rec is Some
        &&& self.deck.rec->0.start is Some
        &&& !self.rec_lane().auto_armed
        &&& self.window(f0, frames).0 < self.window(f0, frames).1
    }

    /// A block of the record tap captured.
    pub open spec fn captured(self, f0: Frame, frames: int) -> World {
        if !self.captures(f0, frames) {
            self
        } else {
            let rec = self.deck.rec->0;
            let i = rec.lane as int;
            let (lo, hi) = self.window(f0, frames);
            match rec.kind {
                Kind::Take => self.with_lane(
                    i,
                    Lane {
                        written: grid::max_int(self.lane(i).written as int, hi - rec.start->0) as Frame,
                        ..self.lane(i)
                    },
                ),
                Kind::Overdub => self.with_rec(
                    Some(
                        Recorder {
                            summed: grid::min_int(rec.summed + (hi - lo), self.deck.master as int) as Frame,
                            ..rec
                        },
                    ),
                ),
            }
        }
    }

    /// Lane `i` sounds: only a committed lane plays, and one whose overdub PLAY/STOP ended does not.
    pub open spec fn sounding(self, i: int) -> bool {
        let t = self.lane(i);
        let silent = self.deck.rec is Some && self.deck.rec->0.stop_playback && self.deck.rec->0.lane == i;
        t.state == LaneState::Playing || t.state == LaneState::Overdubbing && !silent
    }

    // ── A session loaded ─────────────────────────────────────────────────────────────────────────

    /// The tempo set and locked, and the master grid anchored on this frame.
    pub open spec fn load_begun(self, now: Frame, bpm: u32, bars: Frame, master: Frame) -> World {
        World {
            deck: Deck { master, anchor: now, ..self.deck },
            clock: (Clock { bpm, locked: true, ..self.clock }).on_master(now, master, bars, now),
            ..self
        }
    }

    /// A lane with a loaded loop, playing or stopped.
    pub open spec fn lane_loaded(self, i: int, reversed: bool, playing: bool) -> World {
        let t = self.lane(i);
        self.with_lane(
            i,
            Lane {
                length: self.deck.master,
                period: self.deck.master,
                written: self.deck.master,
                armed: false,
                auto_armed: false,
                reversed,
                undo_valid: false,
                audible: Audible { buf: t.live, reversed },
                switch_at: None,
                stop_at: None,
                state: if playing {
                    LaneState::Playing
                } else {
                    LaneState::Stopped
                },
                ..t
            },
        )
    }

    // ── The device stopped ───────────────────────────────────────────────────────────────────────

    /// The capture in flight has retained something.
    pub open spec fn retains(self) -> bool {
        let rec = self.deck.rec->0;
        match rec.kind {
            Kind::Take => self.rec_lane().written > 0,
            Kind::Overdub => rec.summed > 0,
        }
    }

    /// An empty layer given up, the lane playing on.
    pub open spec fn layer_dropped(self, now: Frame, i: int, rec: Recorder) -> World {
        let w = self.layer_discarded(now, i, rec);
        w.with_lane(
            i,
            Lane {
                state: if rec.stop_playback {
                    LaneState::Stopped
                } else {
                    LaneState::Playing
                },
                ..w.lane(i)
            },
        ).released(i)
    }

    /// What records ends after the last rendered frame and commits as usual, a roll with a kept pass on
    /// that pass; what has retained nothing is cancelled. Nothing is handed on.
    #[verifier::opaque]
    pub open spec fn punched_out(self, now: Frame) -> World {
        if self.deck.rec is None {
            self
        } else {
            let rec = Recorder { handoff: None, ..self.deck.rec->0 };
            let i = rec.lane as int;
            let t = self.lane(i);
            let w = self.with_rec(Some(rec));
            let ended = Recorder { roll: None, ..rec };
            if t.armed || t.auto_armed {
                w.stopped(now, i)
            } else if rec.roll is Some && rec.roll->0.kept {
                w.pass_approved(i, ended).finished(now, 0, i)
            } else if !self.retains() {
                if rec.kind == Kind::Take {
                    w.stopped(now, i)
                } else {
                    w.layer_dropped(now, i, rec)
                }
            } else {
                w.window_cut(ended, now).finished(now, 0, i)
            }
        }
    }
}

// ── What every state keeps ─────────────────────────────────────────────────────────────────────────

impl Lane {
    /// What holds of a lane in a session with this master and these buffers.
    pub open spec fn ok(self, master: Frame, capacity: Frame) -> bool {
        &&& (self.is_committed() || self.state == LaneState::Overdubbing) ==> master > 0 && self.length == master
        &&& self.state == LaneState::Recording ==> self.length == 0 || self.length == master
        &&& self.state == LaneState::Empty ==> self.length == 0
        &&& self.length > 0 ==> 0 < self.period <= self.length && self.length as int % self.period as int == 0
        &&& !self.is_committed() ==> self.period == self.length
        &&& 0 <= self.written <= capacity
        &&& self.armed || self.auto_armed ==> self.state == LaneState::Recording
        &&& self.auto_armed ==> !self.armed && master == 0
        &&& self.audible.buf == self.live || self.audible.buf == self.spare
        &&& self.state == LaneState::Overdubbing ==> self.audible.buf == self.live
        &&& self.switch_at is None ==> self.audible == self.own()
        &&& !self.is_committed() ==> !self.reversed && self.switch_at is None
        &&& self.state == LaneState::Empty || self.state == LaneState::Recording ==> self.stop_at is None
        &&& (self.switch_at matches Some(f) ==> kept(f as int))
        &&& (self.stop_at matches Some(f) ==> kept(f as int))
        &&& self.volume.finite()
        &&& 0 <= self.volume.rank() <= SINGLE_ONE_AND_A_HALF
    }
}

impl Recorder {
    /// What holds of the recorder's window when lane `t` records at `now`.
    pub open spec fn ok(self, t: Lane, master: Frame, capacity: Frame, now: Frame) -> bool {
        &&& 0 <= self.align <= LOOP_LIMIT
        &&& (self.handoff matches Some(n) ==> n < TRACK_COUNT && n != self.lane)
        &&& match self.kind {
            Kind::Take => {
                &&& t.state == LaneState::Recording
                &&& if t.auto_armed {
                    &&& self.start is None
                    &&& self.end is None
                    &&& self.roll is None
                    &&& self.handoff is None
                } else {
                    &&& self.start is Some
                    &&& self.end is Some
                    &&& -2 * HORIZON + 4 * LOOP_LIMIT <= self.start->0
                    &&& self.start->0 <= (if t.armed {
                        HORIZON + 3 * LOOP_LIMIT
                    } else {
                        now as int
                    })
                    &&& self.start->0 <= self.end->0 <= self.start->0 + capacity
                    &&& (self.downbeat matches Some(d) ==> d + self.align == self.start->0)
                    &&& master == 0 ==> self.downbeat is Some
                    &&& self.roll is Some ==> self.start->0 < self.end->0
                    &&& self.roll is Some && master > 0 ==> self.end->0 - self.start->0 == master
                    &&& self.handoff is Some && master > 0 ==> self.end->0 - self.start->0 <= master
                }
            },
            Kind::Overdub => {
                &&& t.state == LaneState::Overdubbing
                &&& self.start is Some
                &&& kept(self.start->0 as int)
                &&& (self.end matches Some(e) ==> kept(e as int))
                &&& self.roll is None
                &&& self.handoff is None
                &&& self.downbeat is None
                &&& 0 <= self.first_pos < master
                &&& 0 <= self.summed <= master
            },
        }
    }
}

impl Deck {
    /// The pool slot of each owner: five live buffers, five spares, the free one.
    pub open spec fn owner(self, k: int) -> int {
        if k < 5 {
            self.lanes@[k].live as int
        } else if k < 10 {
            self.lanes@[k - 5].spare as int
        } else {
            self.free as int
        }
    }

    /// No two owners share a buffer.
    #[verifier::opaque]
    pub open spec fn pool_ok(self) -> bool {
        &&& forall|k: int| 0 <= k < BUFFER_COUNT ==> 0 <= #[trigger] self.owner(k) < BUFFER_COUNT
        &&& forall|j: int, k: int|
            0 <= j < k < BUFFER_COUNT ==> #[trigger] self.owner(j) != #[trigger] self.owner(k)
    }

    /// The position of its buffer lane `k` plays at a frame: its loop position, read through its
    /// orientation, round and round the loop that the buffer holds.
    pub open spec fn heard(self, k: int, f: int) -> int {
        let t = self.lanes@[k];
        let pos = grid::pos_in_loop(f, self.anchor as int, self.master as int);
        let at = if t.audible.reversed {
            self.master - 1 - pos
        } else {
            pos
        };
        at % (t.period as int)
    }

    /// The most bars a FIXED take can have next, at so many frames a bar.
    pub open spec fn longest_take(self, fpb: int) -> int {
        if self.master == 0 {
            MAX_FIXED_BARS as int
        } else if self.master as int % fpb == 0 {
            grid::later_bars(MAX_FIXED_BARS as int, self.master as int / fpb, most_bars(self.capacity, fpb))
        } else {
            grid::min_int(MAX_FIXED_BARS as int, grid::whole_bars(self.master as int, fpb))
        }
    }

    pub open spec fn settings_ok(self) -> bool {
        &&& MIN_SAMPLE_RATE <= self.sample_rate
        &&& 6 * self.sample_rate <= self.capacity <= LOOP_LIMIT
        &&& self.capacity <= usize::MAX
        &&& self.master == 0 || 4 <= self.master <= self.capacity
        &&& kept(self.anchor as int)
        &&& 1 <= self.fixed_bars <= MAX_FIXED_BARS
        &&& MIN_SENSITIVITY <= self.auto_sensitivity <= MAX_SENSITIVITY
        &&& self.selected < TRACK_COUNT
        &&& (self.clear_armed matches Some(c) ==> c.lane < TRACK_COUNT && grid::near(c.at as int))
    }

    #[verifier::opaque]
    pub open spec fn lanes_ok(self) -> bool {
        forall|k: int| 0 <= k < TRACK_COUNT ==> (#[trigger] self.lanes@[k]).ok(self.master, self.capacity)
    }

    /// The recorder's lane, and no other, captures.
    #[verifier::opaque]
    pub open spec fn rec_ok(self, now: Frame) -> bool {
        &&& forall|k: int|
            0 <= k < TRACK_COUNT ==> ((#[trigger] self.lanes@[k]).is_capturing() <==> self.rec is Some
                && self.rec->0.lane == k)
        &&& (self.rec matches Some(r) ==> r.lane < TRACK_COUNT && r.ok(
            self.lanes@[r.lane as int],
            self.master,
            self.capacity,
            now,
        ))
    }
}

/// A job in a session: the lane a discarded layer is restored on plays its live buffer, and no capture
/// runs meanwhile.
#[verifier::opaque]
pub open spec fn jobs_ok(deck: Deck, jobs: Seq<Option<Job>>) -> bool {
    forall|k: int|
        0 <= k < jobs.len() && (#[trigger] jobs[k]) is Some ==> {
            let job = jobs[k]->0;
            &&& job.wf(deck.capacity as int)
            &&& job.kind is Restore ==> deck.rec is None && deck.lanes@[job.lane as int].audible.buf
                == deck.lanes@[job.lane as int].live
        }
}

/// A committed lane no job works on holds a loop of its whole length.
#[verifier::opaque]
pub open spec fn whole_ok(deck: Deck, jobs: Seq<Option<Job>>) -> bool {
    forall|k: int|
        0 <= k < TRACK_COUNT && (#[trigger] deck.lanes@[k]).is_committed() ==> deck.lanes@[k].period
            == deck.lanes@[k].length || busy(jobs, k)
}

impl World {
    /// What every state of the looper keeps, at a frame.
    pub open spec fn inv(self, now: Frame) -> bool {
        &&& grid::near(now as int)
        &&& self.deck.settings_ok()
        &&& self.deck.pool_ok()
        &&& self.deck.lanes_ok()
        &&& self.deck.rec_ok(now)
        &&& jobs_ok(self.deck, self.jobs)
        &&& whole_ok(self.deck, self.jobs)
        &&& tasks::tasks_ok(self.deck, self.jobs, now)
        &&& tasks::hand_ok(self.deck)
        &&& self.clock.wf()
        &&& self.clock.sample_rate == self.deck.sample_rate
    }

    /// A lane of a state that keeps the invariant.
    pub proof fn lemma_lane(self, now: Frame, i: int)
        requires
            self.inv(now),
            0 <= i < TRACK_COUNT,
        ensures
            self.lane(i).ok(self.deck.master, self.deck.capacity),
            self.lane(i).is_capturing() <==> self.deck.rec is Some && self.deck.rec->0.lane == i,
            self.lane(i).live < BUFFER_COUNT,
            self.lane(i).spare < BUFFER_COUNT,
            self.lane(i).live != self.lane(i).spare,
            self.lane(i).live != self.deck.free,
            self.lane(i).spare != self.deck.free,
            self.deck.free < BUFFER_COUNT,
    {
        reveal(Deck::lanes_ok);
        reveal(Deck::rec_ok);
        reveal(Deck::pool_ok);
        assert(self.deck.lanes@[i].is_capturing() <==> self.deck.rec is Some && self.deck.rec->0.lane == i);
        assert(self.deck.owner(i) != self.deck.owner(i + 5));
        assert(self.deck.owner(i) != self.deck.owner(10));
        assert(self.deck.owner(i + 5) != self.deck.owner(10));
    }

    /// The recorder of a state that keeps the invariant.
    pub proof fn lemma_rec(self, now: Frame)
        requires
            self.inv(now),
            self.deck.rec is Some,
        ensures
            self.deck.rec->0.lane < TRACK_COUNT,
            self.deck.rec->0.ok(
                self.lane(self.deck.rec->0.lane as int),
                self.deck.master,
                self.deck.capacity,
                now,
            ),
    {
        reveal(Deck::rec_ok);
    }

    /// Time passing keeps it.
    pub proof fn lemma_inv_later(self, now: Frame, later: Frame)
        requires
            self.inv(now),
            now <= later,
            grid::near(later as int),
        ensures
            self.inv(later),
    {
        reveal(Deck::rec_ok);
        tasks::lemma_tasks_later(self.deck, self.jobs, now, later);
    }
}

} // verus!
