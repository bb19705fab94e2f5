//! A loop station's audio engine: five lanes on one master loop, recorded, layered, undone, reversed and
//! saved while they play, with everything that decides what sounds on which frame.
//!
//! Samples and levels cross as bit patterns ([`float`]); what is computed on them is the renderer's. What
//! stands here is integers and states, and what it does is proved.
//!
//! # Modules
//!
//! - [`grid`]: frames per bar, whole-bar clamps, commit and stop plans, the beat grid, how a take fills
//!   its loop.
//! - [`clock`]: the tempo and its lock, the beat pulse, the click; [`beats`]: which beats sound, and when.
//! - [`deck`]: the looper's state without its samples, and every transition as a function on it.
//! - [`keeps`]: that every transition keeps the deck's invariant.
//! - [`tasks`]: where the block jobs stand: on buffers of their own, ahead of the heads.
//! - [`timely`]: that nothing scheduled is ever overdue.
//! - [`control`]: the transitions as executable code.
//! - [`jobs`], [`pool`], [`apart`]: what a block job moves, the buffers it moves it between, and that jobs
//!   which keep apart may be run in either order.
//! - [`looper`]: the deck with its buffers: capture, playback, jobs, snapshots and loads; and what each
//!   gesture is for ([`looper::gestures`], [`looper::changes`], [`looper::presses`]), how a capture starts,
//!   ends and lands ([`looper::starts`], [`looper::taking`], [`looper::commits`]), what is captured and told
//!   ([`looper::running`], [`looper::keeping`]).
//! - [`autorec`]: the AUTO REC onset detector.
//! - [`pending`], [`rings`]: the commands held for their frame, and the rings they come on.
//! - [`engine`]: the callback: a block, its chunks, and what each frame does.
//! - [`session`], [`slots`], [`overview`]: the host's ports: saving and loading, plugin units, what the UI
//!   draws; [`notes`]: where a note goes, and what becomes of a unit.
//! - [`effects`], [`input_fx`], [`instruments`]: the settings and clocks of what is rendered.
//! - [`dsp`]: the decisions inside the sound: automation timelines, schedules, voices, convolution stages.
//! - [`api`]: commands, events, refusals, the process context.
//!
//! # What holds
//!
//! - Every committed lane is one master long, and a lane plays loop position `(f - anchor) mod master`
//!   at frame `f`.
//! - A later take past the master multiplies it: the take is the new master, whole old masters long, and
//!   the other loops repeat to its length with their phase and the beats unchanged.
//! - Every state change lands on its exact frame, whatever the size of the blocks: once a frame's work is done
//!   nothing is scheduled up to it, and a chunk ends where something happens next.
//! - A chunk in which nothing happens may be closed on the way and the next one opened there, with or without
//!   a block's end between: the state is the same, so are the samples, and so is what every lane plays.
//! - No two owners share a buffer, and at most one lane captures.
//! - Loop-sized work is done by block jobs, at most [`looper::JOB_RATE`] positions per rendered frame,
//!   ahead of the head that reads what they write.
//! - A command that needs a job finished waits for it, and the looper's commands keep their order behind
//!   it; a note never waits, and a command that would do nothing is dropped, never held.
//! - A refused press changes nothing but says so.
//! - A snapshot that comes back whole holds the committed loops as they stood when it began.
//! - A plugin unit that entered is in a slot, on its way back, or back.
//!
//! Each stands as a contract or as a `law_` function beside what it is about.

pub mod apart;
pub mod api;
pub mod autorec;
pub mod beats;
pub mod clock;
pub mod control;
pub mod deck;
pub mod dsp;
pub mod effects;
pub mod engine;
pub mod float;
pub mod grid;
pub mod input_fx;
pub mod instruments;
pub mod jobs;
pub mod keeps;
pub mod looper;
pub mod notes;
pub mod overview;
pub mod pending;
pub mod pool;
pub mod rings;
pub mod session;
pub mod slots;
pub mod tasks;
pub mod timely;

pub use api::{
    Action, Command, Event, InputSend, InputSendParam, Instrument, LaneInfo, LaneState, NoteTarget, ProcessContext,
    Refusal, SlotEvent, SlotEventKind, SlotKind, TimedCommand, Unit, SLOT_COUNT, TRACK_COUNT,
};
pub use engine::{Diag, Engine, EngineConfig, EngineHandle};
pub use overview::{LaneView, Overview};
pub use session::{Load, LoadTrack, SessionError, SessionJob, SessionPort, Snapshot, SnapshotTrack};
pub use slots::SlotPort;
