//! The engine's callback: the command ring and its table, the block split, and what each frame of a
//! block does to the looper, the clock and the plugin slots. The host renders: it opens a block, then
//! chunk after chunk until the block's end, plays what the looper, the slots and the sounds say, and
//! hands back what it recorded.
//!
//! A block is rendered in chunks that end wherever something happens: a command's frame, a scheduled
//! looper event, a beat, an AUTO trigger, and a render quantum's end (the effects and the reverb bus work
//! per quantum). Every looper state change therefore lands on its exact frame.
//!
//! A take's alignment is the driver's latency plus the live effect's plus the limiter's.

use vstd::prelude::*;

use crate::api::{Event, SlotKind, TimedCommand};
use crate::clock::{Clock, MIN_SAMPLE_RATE};
use crate::control::Cx;
use crate::deck::World;
use crate::engine::apply::TimedSound;
use crate::float::{Single, SINGLE_ONE};
use crate::grid;
use crate::grid::{Frame, HORIZON, LOOP_LIMIT};
use crate::looper;
use crate::looper::Looper;
use crate::pending::Table;
use crate::rings;
use crate::rings::{command_ring, Feed, RING_LIMIT};
use crate::session::{channel, SessionEnd, SessionPort};
use crate::slots::{Rack, SlotChange, SlotPort};

pub mod apply;
pub mod block;
pub mod laws;
pub mod promises;
pub mod seams;
pub mod splits;

verus! {

/// Frames of a render quantum: the effects and the reverb bus work per quantum.
pub const QUANTUM: Frame = 128;

/// Room made ahead for what a block asks of the host: more than a block's commands can ask for.
pub const WORK_CAPACITY: usize = 1024;

/// The largest block an engine can be made for.
pub const BLOCK_LIMIT: usize = 0x10_0000;

#[derive(Clone, Copy, Debug, PartialEq, Eq, Structural)]
pub struct EngineConfig {
    pub sample_rate: u32,
    /// Lane buffer length. Every buffer is allocated in `Engine::new`.
    pub capacity: Frame,
    /// The largest block the engine accepts.
    pub max_block: usize,
    pub command_capacity: usize,
    pub event_capacity: usize,
    /// Frames the limiter delays the master bus by.
    pub limiter_latency: Frame,
}

impl EngineConfig {
    /// A minute of loop. The command ring holds a new engine's settings replay (about a hundred commands)
    /// and the UI's batch after it with room to spare; the engine takes up to `MAX_PENDING` a block, the
    /// rest wait.
    pub fn new(sample_rate: u32, limiter_latency: Frame) -> (config: Self)
        ensures
            config == (EngineConfig {
                sample_rate,
                capacity: (60 * sample_rate) as Frame,
                max_block: 4096,
                command_capacity: 1024,
                event_capacity: 4096,
                limiter_latency,
            }),
    {
        EngineConfig {
            sample_rate,
            capacity: 60 * sample_rate as Frame,
            max_block: 4096,
            command_capacity: 1024,
            event_capacity: 4096,
            limiter_latency,
        }
    }

    /// An engine can be made of it.
    pub open spec fn ok(self) -> bool {
        &&& MIN_SAMPLE_RATE <= self.sample_rate
        &&& 6 * self.sample_rate <= self.capacity <= LOOP_LIMIT
        &&& self.capacity <= usize::MAX
        &&& self.max_block <= BLOCK_LIMIT
        &&& self.command_capacity <= RING_LIMIT
        &&& self.event_capacity <= RING_LIMIT
        &&& 0 <= self.limiter_latency <= LOOP_LIMIT
    }
}

/// The non-RT side: send commands, read the feed, install and take back plugin units, save and load.
pub struct EngineHandle {
    pub commands: rtrb::Producer<TimedCommand>,
    pub events: rtrb::Consumer<Event>,
    pub slots: Vec<SlotPort>,
    pub session: SessionPort,
}

/// Counters the owner reports.
#[derive(Clone, Copy, Debug, PartialEq, Eq, Structural)]
pub struct Diag {
    pub events_dropped: u64,
    pub commands_dropped: u64,
    pub xruns: u64,
    /// Notes a plugin slot could not queue (more than `slots::MAX_SLOT_EVENTS` between two renders).
    pub slot_events_dropped: u64,
    /// Units installed into an occupied slot (handed back) or given up because nothing read the port.
    pub slot_protocol_errors: u64,
}

pub struct Engine {
    pub config: EngineConfig,
    pub looper: Looper,
    /// The frame it is at, the alignment, the clock, the feed and what is to be done to the lanes' effects.
    pub cx: Cx,
    pub table: Table,
    pub commands: rtrb::Consumer<TimedCommand>,
    pub rack: Rack,
    pub session: SessionEnd,
    /// What the instruments and the input sends are to do, in order.
    pub sounds: Vec<TimedSound>,
    /// What the host's processors are to do, in order.
    pub changes: Vec<SlotChange>,
    pub master_volume: Single,
    pub master_muted: bool,
    pub started: bool,
    /// The block's first frame, and the frame past its last: where the next block should start.
    pub block: Frame,
    pub next_frame: Frame,
    /// The device frames skipped so far: the offset of the clock the sounds run on.
    pub skipped: Frame,
    pub xruns: u64,
}

impl Engine {
    pub open spec fn world(&self) -> World {
        self.looper.world(self.cx)
    }

    pub open spec fn past(&self) -> Seq<Seq<Seq<Single>>> {
        self.looper.pool.past@
    }

    /// The frames it counts are in order, and near.
    pub open spec fn timely(&self) -> bool {
        &&& self.block <= self.cx.now <= self.next_frame
        &&& self.next_frame - self.block <= self.config.max_block
        &&& self.block <= self.rack.cursor <= self.next_frame
        &&& grid::near(self.block as int)
        &&& grid::near(self.next_frame as int)
        &&& -HORIZON <= self.skipped <= self.next_frame
    }

    pub open spec fn wf(&self) -> bool {
        &&& self.config.ok()
        &&& self.looper.ready(self.cx)
        &&& self.looper.control.deck.capacity == self.config.capacity
        &&& self.table.wf()
        &&& self.rack.wf()
        &&& self.session.wf(self.past(), self.config.capacity as int)
        &&& self.timely()
    }

    pub fn new(config: EngineConfig) -> (ends: (Engine, EngineHandle))
        requires
            config.ok(),
        ensures
            ends.0.wf(),
            ends.0.config == config,
            ends.0.looper.fresh(config.sample_rate, config.capacity),
            forall|g: Frame| !(#[trigger] ends.0.world().scheduled(g)),
            ends.0.cx.now == 0,
            ends.0.cx.align == 0,
            ends.0.cx.clock == Clock::fresh(config.sample_rate),
            ends.0.cx.feed.offers() == Seq::<(Event, bool)>::empty(),
            ends.0.cx.feed.said() == Seq::<Event>::empty(),
            ends.0.cx.feed.room() == config.event_capacity,
            ends.0.cx.feed.lost() == 0,
            ends.0.cx.fx@.len() == 0,
            forall|k: int| 0 <= k < crate::pending::MAX_PENDING ==> (#[trigger] ends.0.table.slots@[k]) is None,
            ends.0.table.seq == 0,
            ends.0.table.dropped == 0,
            rings::commands_polled(ends.0.commands) == Seq::<Option<TimedCommand>>::empty(),
            rings::command_sink(ends.1.commands) == rings::command_source(ends.0.commands),
            rings::command_room(ends.1.commands) == config.command_capacity,
            ends.0.cx.feed.sink() == rings::event_source(ends.1.events),
            ends.0.rack.target is None,
            ends.0.rack.cursor == 0,
            ends.0.rack.events_dropped == 0,
            ends.0.rack.protocol_errors == 0,
            forall|i: int|
                0 <= i < crate::api::SLOT_COUNT ==> (#[trigger] ends.0.rack.slots@[i]).fresh(crate::slots::RETURN_CAPACITY as nat),
            ends.0.session.fresh(),
            ends.0.sounds@.len() == 0,
            ends.0.changes@.len() == 0,
            !ends.0.started,
            ends.0.block == 0,
            ends.0.next_frame == 0,
            ends.0.skipped == 0,
            ends.0.xruns == 0,
            ends.0.master_volume == (Single { bits: SINGLE_ONE }),
            !ends.0.master_muted,
            ends.1.slots@.len() == crate::api::SLOT_COUNT,
            forall|i: int| 0 <= i < crate::api::SLOT_COUNT ==> (#[trigger] ends.1.slots@[i]).fresh(),
            forall|i: int|
                0 <= i < crate::api::SLOT_COUNT ==> (#[trigger] ends.1.slots@[i]).joined(&ends.0.rack.slots@[i]),
            ends.1.session.fresh(),
            ends.1.session.joined(&ends.0.session),
    {
        let (cmd_tx, cmd_rx) = command_ring(config.command_capacity);
        let (feed, evt_rx) = Feed::new(config.event_capacity);
        let (rack, slots) = Rack::new();
        let (session_port, session) = channel();
        let clock = Clock::new(config.sample_rate);
        let cx = Cx { now: 0, align: 0, clock, feed, fx: Vec::with_capacity(WORK_CAPACITY) };
        let looper = Looper::new(config.sample_rate, config.capacity);
        assert(looper.ready(cx));
        let engine = Engine {
            config,
            looper,
            cx,
            table: Table::new(),
            commands: cmd_rx,
            rack,
            session,
            sounds: Vec::with_capacity(WORK_CAPACITY),
            changes: Vec::with_capacity(WORK_CAPACITY),
            master_volume: Single { bits: SINGLE_ONE },
            master_muted: false,
            started: false,
            block: 0,
            next_frame: 0,
            skipped: 0,
            xruns: 0,
        };
        (engine, EngineHandle { commands: cmd_tx, events: evt_rx, slots, session: session_port })
    }

    pub fn config(&self) -> (config: &EngineConfig)
        ensures
            *config == self.config,
    {
        &self.config
    }

    pub fn looper(&self) -> (looper: &Looper)
        ensures
            *looper == self.looper,
    {
        &self.looper
    }

    pub fn clock(&self) -> (clock: &Clock)
        ensures
            *clock == self.cx.clock,
    {
        &self.cx.clock
    }

    /// True while a command waits for a block job.
    pub fn holding(&self) -> (r: bool)
        ensures
            r <==> exists|k: int|
                0 <= k < self.table.slots@.len() && (#[trigger] self.table.slots@[k]) is Some && self.table.slots@[k]->0.held,
    {
        self.table.holding()
    }

    /// Frames the limiter delays the master bus by.
    pub fn limiter_latency(&self) -> (frames: Frame)
        ensures
            frames == self.config.limiter_latency,
    {
        self.config.limiter_latency
    }

    pub fn diag(&self) -> (diag: Diag)
        ensures
            diag == (Diag {
                events_dropped: self.cx.feed.lost(),
                commands_dropped: self.table.dropped,
                xruns: self.xruns,
                slot_events_dropped: self.rack.events_dropped,
                slot_protocol_errors: self.rack.protocol_errors,
            }),
    {
        Diag {
            events_dropped: self.cx.feed.dropped(),
            commands_dropped: self.table.dropped,
            xruns: self.xruns,
            slot_events_dropped: self.rack.events_dropped,
            slot_protocol_errors: self.rack.protocol_errors,
        }
    }

    /// A plugin slot's unit: its kind and latency, `None` while the slot is empty.
    pub fn slot(&self, slot: usize) -> (r: Option<(SlotKind, Frame)>)
        requires
            self.rack.wf(),
        ensures
            r is Some <==> slot < crate::api::SLOT_COUNT && self.rack.slots@[slot as int].unit is Some,
            r matches Some(x) ==> x.0 == self.rack.slots@[slot as int].kind && x.1
                == self.rack.slots@[slot as int].latency,
    {
        self.rack.installed(slot)
    }

    /// Frames the wet signal lags the input: the live effect's latency (0 with none).
    pub fn live_latency(&self) -> (frames: Frame)
        requires
            self.rack.wf(),
        ensures
            frames == self.lag(),
            frames >= 0,
    {
        self.rack.live_latency()
    }

    pub open spec fn lag(&self) -> int {
        grid::max_int(Rack::latency_of(&self.rack.slots@[0]), Rack::latency_of(&self.rack.slots@[1]))
    }

    /// While no device runs and the host holds the engine: apply the slot ports' installs and removals
    /// at once, without crossfades.
    pub fn service_slots_idle(&mut self)
        requires
            old(self).wf(),
        ensures
            final(self).wf(),
            *final(self) == (Engine { rack: final(self).rack, changes: final(self).changes, ..*old(self) }),
            final(self).rack.serviced(&old(self).rack, true, false, old(self).changes@, final(self).changes@),
            final(self).rack.cursor == old(self).rack.cursor,
    {
        self.rack.service_idle(&mut self.changes);
    }

    /// While no device runs: stop every unit, an install still waiting on its port included, and hand
    /// it back on its port (a sample-rate change; the host re-activates each at the new rate and
    /// installs it into the new engine).
    pub fn evict_slots(&mut self)
        requires
            old(self).wf(),
        ensures
            final(self).wf(),
            *final(self) == (Engine { rack: final(self).rack, changes: final(self).changes, ..*old(self) }),
            exists|mid: Rack, half: Seq<SlotChange>|
                #![trigger mid.serviced(&old(self).rack, true, false, old(self).changes@, half)]
                mid.serviced(&old(self).rack, true, false, old(self).changes@, half) && final(self).rack.evicted(
                    &mid,
                    half,
                    final(self).changes@,
                ),
    {
        self.rack.service_idle(&mut self.changes);
        let ghost mid = self.rack;
        let ghost half = self.changes@;
        self.rack.evict(&mut self.changes);
        assert(mid.serviced(&old(self).rack, true, false, old(self).changes@, half));
    }

    /// The device stopped (a switch, a close or its loss): a take or overdub in flight punches out after
    /// the last rendered frame and is kept. The next block continues the frame counter where the last one
    /// ended. A no-op before the first block.
    pub fn punch_out(&mut self)
        requires
            old(self).wf(),
            old(self).cx.now == old(self).next_frame,
        ensures
            final(self).wf(),
            *final(self) == (Engine { looper: final(self).looper, cx: final(self).cx, ..*old(self) }),
            !old(self).started ==> *final(self) == *old(self),
            final(self).looper.pool == old(self).looper.pool,
            final(self).looper.job_step_max == old(self).looper.job_step_max,
            old(self).started ==> {
                let out = old(self).world().punched_out(old(self).next_frame);
                &&& final(self).cx.now == old(self).cx.now
                &&& final(self).cx.align == 0
                &&& final(self).world() == said_news(out, &old(self).looper, old(self).next_frame)
                &&& final(self).looper.told(out)
            },
    {
        if !self.started {
            return;
        }
        // Nothing a punch-out does starts a capture, the only reader of the alignment.
        let ghost w0 = self.world();
        self.cx.align = 0;
        self.looper.punch_out(&mut self.cx);
        let ghost out = self.world();
        self.looper.publish(&mut self.cx);
        assert(self.world() == said_news(out, &old(self).looper, old(self).next_frame));
    }
}

/// A world with what a publish of `l` says of it.
pub open spec fn said_news(w: World, l: &Looper, now: Frame) -> World {
    World {
        said: w.said + looper::audio::lane_news(w, l.published@, now, crate::api::TRACK_COUNT as int)
            + looper::audio::transport_news(w, l.published_transport, now),
        ..w
    }
}

} // verus!
