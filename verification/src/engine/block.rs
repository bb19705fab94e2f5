//! A block: opened, split into chunks, and closed.

use vstd::prelude::*;

use crate::api::{Command, Event, ProcessContext, TimedCommand};
use crate::control::Cx;
use crate::deck::{Applied, World};
use crate::engine;
use crate::engine::apply;
use crate::engine::apply::{sound, TimedSound};
use crate::engine::{Engine, QUANTUM};
use crate::float::{Single, SINGLE_ONE};
use crate::grid;
use crate::grid::{loop_pos, Frame, LOOP_LIMIT};
use crate::looper;
use crate::pending;
use crate::pending::{Pending, Table, MAX_PENDING};
use crate::rings;
use crate::rings::take_command;
use crate::slots::Rack;

verus! {

/// The frame a command is held for: its own, not before the block.
pub open spec fn held_for(c: TimedCommand, start: Frame) -> Frame {
    match c.frame {
        Some(f) if f > start => f,
        _ => start,
    }
}

/// A table, its count of commands sent, and nothing else.
pub struct Desk {
    pub slots: Seq<Option<Pending>>,
    pub seq: u64,
}

/// The commands held one after the other.
pub open spec fn all_held(d: Desk, taken: Seq<TimedCommand>, start: Frame) -> Desk
    decreases taken.len(),
{
    if taken.len() == 0 {
        d
    } else {
        let e = all_held(d, taken.drop_last(), start);
        let c = taken.last();
        let seq = e.seq.wrapping_add(1);
        Desk {
            slots: pending::with_pending(
                e.slots,
                Pending { frame: held_for(c, start), seq, command: c.command, held: false },
            ),
            seq,
        }
    }
}

/// A take's alignment: the driver's latency, the live effect's and the limiter's, as far as the frames the
/// looper stores leave room for it (months of audio).
pub open spec fn alignment(align: int, lag: int, limiter: int) -> int {
    grid::min_int(align + lag + limiter, LOOP_LIMIT as int)
}

impl Engine {
    pub open spec fn desk(&self) -> Desk {
        Desk { slots: self.table.slots@, seq: self.table.seq }
    }

    /// The commands on the ring taken one by one, each into a free slot of the table, until the ring was
    /// found empty or the table was full: the rest waits on the ring for the next block, late but never
    /// dropped.
    pub open spec fn drained(&self, before: &Engine, start: Frame) -> bool {
        &&& *self == (Engine { table: self.table, commands: self.commands, ..*before })
        &&& self.table.dropped == before.table.dropped
        &&& exists|polls: Seq<Option<TimedCommand>>| #[trigger] self.took(before, start, polls)
    }

    /// What these looks at the ring gave went into the table.
    pub open spec fn took(&self, before: &Engine, start: Frame, polls: Seq<Option<TimedCommand>>) -> bool {
        let taken = rings::came(polls);
        &&& rings::commands_polled(self.commands) == rings::commands_polled(before.commands) + polls
        &&& rings::command_source(self.commands) == rings::command_source(before.commands)
        &&& rings::unbroken(polls)
        &&& self.desk() == all_held(before.desk(), taken, start)
        &&& forall|k: int|
            0 <= k < taken.len() ==> pending::first_free(
                (#[trigger] all_held(before.desk(), taken.take(k), start)).slots,
            ) < MAX_PENDING
        &&& polls.len() > 0 && polls.last() is None || pending::first_free(self.table.slots@) == MAX_PENDING
    }

    fn drain(&mut self, start: Frame)
        requires
            old(self).table.wf(),
        ensures
            final(self).table.wf(),
            final(self).drained(old(self), start),
    {
        let ghost d0 = self.desk();
        let ghost p0 = rings::commands_polled(self.commands);
        let ghost mut polls: Seq<Option<TimedCommand>> = Seq::empty();
        assert(p0 + polls =~= p0);
        proof {
            pending::lemma_count_bound(self.table.slots@, i64::MAX, MAX_PENDING as int);
            pending::lemma_first_free(self.table.slots@);
        }
        let mut more: bool = self.table.has_room();
        while more
            invariant
                self.table.wf(),
                *self == (Engine { table: self.table, commands: self.commands, ..*old(self) }),
                self.table.dropped == old(self).table.dropped,
                rings::commands_polled(self.commands) == p0 + polls,
                rings::command_source(self.commands) == rings::command_source(old(self).commands),
                self.desk() == all_held(d0, rings::came(polls), start),
                forall|k: int|
                    0 <= k < rings::came(polls).len() ==> pending::first_free(
                        (#[trigger] all_held(d0, rings::came(polls).take(k), start)).slots,
                    ) < MAX_PENDING,
                rings::unbroken(polls),
                more && polls.len() > 0 ==> polls.last() is Some,
                pending::due_count(self.table.slots@, i64::MAX, MAX_PENDING as int) <= MAX_PENDING,
                more ==> pending::first_free(self.table.slots@) < MAX_PENDING,
                !more ==> polls.len() > 0 && polls.last() is None || pending::first_free(self.table.slots@)
                    == MAX_PENDING,
            decreases
                MAX_PENDING - pending::due_count(self.table.slots@, i64::MAX, MAX_PENDING as int),
                if more {
                    1int
                } else {
                    0int
                },
        {
            let polled: Option<TimedCommand> = take_command(&mut self.commands);
            let ghost taken = rings::came(polls);
            let ghost looks = polls.push(polled);
            proof {
                rings::lemma_came_push(polls, polled);
                assert(p0 + looks =~= (p0 + polls).push(polled));
                assert(rings::unbroken(looks));
            }
            match polled {
                None => {
                    more = false;
                },
                Some(c) => {
                    let frame: Frame = match c.frame {
                        Some(f) => if f > start {
                            f
                        } else {
                            start
                        },
                        None => start,
                    };
                    let ghost before = self.table.slots@;
                    self.table.hold(frame, c.command);
                    proof {
                        let longer = taken.push(c);
                        assert(longer.drop_last() =~= taken);
                        assert forall|k: int| 0 <= k < longer.len() implies pending::first_free(
                            (#[trigger] all_held(d0, longer.take(k), start)).slots,
                        ) < MAX_PENDING by {
                            if k < taken.len() {
                                assert(longer.take(k) =~= taken.take(k));
                                assert(pending::first_free(all_held(d0, taken.take(k), start).slots) < MAX_PENDING);
                            } else {
                                assert(longer.take(k) =~= taken);
                            }
                        }
                        pending::lemma_one_more(before, self.table.slots@, i64::MAX);
                        pending::lemma_count_bound(self.table.slots@, i64::MAX, MAX_PENDING as int);
                        pending::lemma_first_free(self.table.slots@);
                    }
                    more = self.table.has_room();
                },
            }
            proof {
                polls = looks;
            }
        }
        assert(self.took(old(self), start, polls));
    }

    /// A block opened up to its commands: the frame counter, the frames skipped, a gap.
    pub open spec fn entered(&self, before: &Engine, ctx: &ProcessContext, frames: int) -> bool {
        let start = ctx.frame;
        &&& *self == (Engine {
            looper: self.looper,
            cx: self.cx,
            started: true,
            block: start,
            next_frame: (start + frames) as Frame,
            skipped: (if !before.started {
                start as int
            } else {
                before.skipped + (start - before.next_frame)
            }) as Frame,
            xruns: if ctx.xrun {
                before.xruns.wrapping_add(1)
            } else {
                before.xruns
            },
            rack: self.rack,
            ..*before
        })
        &&& self.rack == (Rack { cursor: start, ..before.rack })
        &&& self.cx.now == start
        &&& self.cx.align == before.cx.align
        &&& ({
            let w = before.world();
            let w1 = if !before.started && w.clock.pulse is None {
                w.with_clock(w.clock.free_running(start))
            } else {
                w
            };
            self.world() == (if ctx.xrun {
                w1.gapped(start)
            } else {
                w1
            })
        })
        &&& self.looper.same_tape(&before.looper)
    }

    fn enter(&mut self, ctx: &ProcessContext, frames: usize)
        requires
            old(self).wf(),
            old(self).cx.now == old(self).next_frame,
            frames <= old(self).config.max_block,
            grid::near(ctx.frame as int),
            grid::near(ctx.frame + frames),
            ctx.frame >= old(self).next_frame,
        ensures
            final(self).wf(),
            final(self).entered(old(self), ctx, frames as int),
    {
        let start: Frame = ctx.frame;
        let ghost w0 = self.world();
        if !self.started {
            self.started = true;
            self.cx.clock.ensure_running(start);
            self.skipped = start;
        } else {
            self.skipped = self.skipped + (start - self.next_frame);
        }
        self.cx.now = start;
        self.block = start;
        self.next_frame = start + frames as Frame;
        self.rack.cursor = start;
        proof {
            w0.lemma_inv_later(old(self).cx.now, start);
            w0.lemma_settings(self.world(), start);
        }
        if ctx.xrun {
            self.xruns = self.xruns.wrapping_add(1);
            self.looper.input_gap(&self.cx, start);
        }
    }

    /// The slots' ports serviced at the block's start, and the alignment taken.
    pub open spec fn aligned(&self, before: &Engine, first: bool, align: int) -> bool {
        &&& *self == (Engine { rack: self.rack, changes: self.changes, cx: self.cx, ..*before })
        &&& self.cx == (Cx {
            align: alignment(align, self.lag(), self.config.limiter_latency as int) as Frame,
            ..before.cx
        })
        &&& self.rack.cursor == before.block
        &&& exists|r: Rack|
            #![trigger r.serviced(&before.rack, first, true, before.changes@, self.changes@)]
            r.serviced(&before.rack, first, true, before.changes@, self.changes@) && self.rack == (Rack {
                cursor: before.block,
                ..r
            })
    }

    fn align(&mut self, first: bool, align: Frame)
        requires
            old(self).wf(),
            0 <= align <= LOOP_LIMIT,
        ensures
            final(self).wf(),
            final(self).aligned(old(self), first, align as int),
    {
        self.rack.begin_block(self.block, first, &mut self.changes);
        let lag: Frame = self.rack.live_latency();
        let fixed: Frame = align + self.config.limiter_latency;
        self.cx.align = if lag >= LOOP_LIMIT - fixed {
            LOOP_LIMIT
        } else {
            fixed + lag
        };
        assert(self.looper.world(self.cx) == old(self).world());
    }

    /// A block opened: entered, its commands taken, the slots serviced, the alignment taken.
    pub open spec fn opened(&self, before: &Engine, ctx: &ProcessContext, frames: int) -> bool {
        exists|a: Engine, b: Engine|
            {
                &&& #[trigger] a.entered(before, ctx, frames)
                &&& #[trigger] b.drained(&a, ctx.frame)
                &&& self.aligned(&b, !before.started, ctx.align_frames as int)
            }
    }

    /// Open a block of `frames` frames.
    pub fn open_block(&mut self, ctx: &ProcessContext, frames: usize)
        requires
            old(self).wf(),
            old(self).cx.now == old(self).next_frame,
            frames <= old(self).config.max_block,
            grid::near(ctx.frame as int),
            grid::near(ctx.frame + frames),
            ctx.frame >= old(self).next_frame,
            0 <= ctx.align_frames <= LOOP_LIMIT,
        ensures
            final(self).wf(),
            final(self).opened(old(self), ctx, frames as int),
            final(self).cx.now == ctx.frame,
            final(self).block == ctx.frame,
            final(self).next_frame == ctx.frame + frames,
            final(self).config == old(self).config,
            forall|g: Frame| #[trigger] final(self).world().scheduled(g) ==> old(self).world().scheduled(g),
    {
        let first: bool = !self.started;
        self.enter(ctx, frames);
        let ghost a = *self;
        self.drain(ctx.frame);
        let ghost b = *self;
        self.align(first, ctx.align_frames);
        assert(a.entered(old(self), ctx, frames as int));
        assert(b.drained(&a, ctx.frame));
        proof {
            if old(self).world().deck.rec is Some {
                old(self).world().lemma_rec(old(self).cx.now);
            }
            old(self).world().lemma_same_schedule(self.world());
        }
    }

    /// A session job taken, worked on, and handed back when it is done.
    pub open spec fn session_served(&self, before: &Engine, idle: bool) -> bool {
        &&& *self == (Engine { looper: self.looper, cx: self.cx, session: self.session, ..*before })
        &&& self.cx.when(before.cx)
        &&& self.looper.job_step_max == before.looper.job_step_max
        &&& self.looper.told_as(&before.looper)
        &&& exists|a: crate::session::SessionEnd, b: crate::session::SessionEnd|
            {
                &&& #[trigger] a.fetched(&before.session)
                &&& #[trigger] b.worked(
                    &a,
                    &before.looper,
                    before.cx,
                    &self.looper,
                    self.cx,
                    before.config.sample_rate,
                    idle,
                )
                &&& self.session.finished(&b)
            }
    }

    /// Serve the session port, at a block's start or (`idle`) while no device runs.
    pub fn serve_session(&mut self, idle: bool)
        requires
            old(self).wf(),
        ensures
            final(self).wf(),
            final(self).session_served(old(self), idle),
            forall|g: Frame| #[trigger] final(self).world().scheduled(g) ==> old(self).world().scheduled(g),
    {
        self.session.begin(&mut self.looper, &mut self.cx, self.config.sample_rate, idle);
        proof {
            let (a, b) = choose|a: crate::session::SessionEnd, b: crate::session::SessionEnd|
                {
                    &&& #[trigger] a.fetched(&old(self).session)
                    &&& #[trigger] b.worked(
                        &a,
                        &old(self).looper,
                        old(self).cx,
                        &self.looper,
                        self.cx,
                        old(self).config.sample_rate,
                        idle,
                    )
                    &&& self.session.finished(&b)
                };
            if let Some(crate::session::SessionJob::Load(l)) = a.job {
                if l.result is None {
                    let m = b.job->0->Load_0;
                    looper::session::law_a_load_schedules_nothing(
                        &old(self).looper,
                        old(self).cx,
                        &l,
                        m.result->0,
                        &self.looper,
                        self.cx,
                        &(crate::session::Load { result: l.result, ..m }),
                    );
                }
            }
        }
    }

    /// The snapshot's share of `frames` rendered frames copied.
    pub open spec fn session_advanced(&self, before: &Engine, frames: Frame) -> bool {
        &&& *self == (Engine { session: self.session, ..*before })
        &&& exists|a: crate::session::SessionEnd|
            #[trigger] a.copied(&before.session, &before.looper, crate::session::share(frames))
                && self.session.finished(&a)
    }

    /// Copy the snapshot's share of `frames` rendered frames.
    pub fn advance_session(&mut self, frames: Frame)
        requires
            old(self).wf(),
        ensures
            final(self).wf(),
            final(self).session_advanced(old(self), frames),
    {
        self.session.advance(&self.looper, &self.cx, frames);
    }

    /// While no device runs and the host holds the engine: run a session job on the port at once (a load
    /// at the frame the next block would start, a snapshot copied whole).
    pub fn service_session_idle(&mut self)
        requires
            old(self).wf(),
        ensures
            final(self).wf(),
            exists|a: Engine, b: Engine|
                {
                    &&& #[trigger] a.session_served(old(self), true)
                    &&& #[trigger] b.session_advanced(&a, i64::MAX)
                    &&& final(self).published(&b)
                },
    {
        self.serve_session(true);
        let ghost a = *self;
        self.advance_session(i64::MAX);
        let ghost b = *self;
        self.publish();
        assert(a.session_served(old(self), true));
        assert(b.session_advanced(&a, i64::MAX));
    }

    // ── A chunk ────────────────────────────────────────────────────────────────────────────────────

    /// What changed since the last publish said.
    pub open spec fn published(&self, before: &Engine) -> bool {
        &&& *self == (Engine { looper: self.looper, cx: self.cx, ..*before })
        &&& self.cx.when(before.cx)
        &&& self.world() == engine::said_news(before.world(), &before.looper, before.cx.now)
        &&& self.looper.control == before.looper.control
        &&& self.looper.pool == before.looper.pool
        &&& self.looper.job_step_max == before.looper.job_step_max
        &&& self.looper.told(before.world())
    }

    fn publish(&mut self)
        requires
            old(self).wf(),
        ensures
            final(self).wf(),
            final(self).published(old(self)),
    {
        self.looper.publish(&mut self.cx);
    }

    /// Everything scheduled for this frame done.
    pub open spec fn evented(&self, before: &Engine) -> bool {
        &&& *self == (Engine { looper: self.looper, cx: self.cx, ..*before })
        &&& self.cx.when(before.cx)
        &&& self.world() == before.world().due(before.cx.now, before.cx.align)
        &&& self.looper.pcm() == looper::pcm_completed(
            before.looper.pcm(),
            before.world().lanes_due(before.cx.now, 0).jobs,
            before.cx.now,
            0,
        )
        &&& self.looper.job_step_max == looper::most_completed(
            before.looper.job_step_max as int,
            before.world().lanes_due(before.cx.now, 0).jobs,
            before.cx.now,
            0,
        )
        &&& self.looper.told_as(&before.looper)
        &&& before.world().timely(before.cx.now) ==> self.world().all_past(before.cx.now)
    }

    fn events(&mut self)
        requires
            old(self).wf(),
        ensures
            final(self).wf(),
            final(self).evented(old(self)),
    {
        self.looper.events(&mut self.cx);
        proof {
            self.session.lemma_wf_later(old(self).past(), self.past(), self.config.capacity as int);
        }
    }

    /// A command applied now: to the looper and the clock, the slots, the sounds and the master.
    pub open spec fn applied(&self, before: &Engine, command: Command) -> bool {
        let now = before.cx.now;
        &&& *self == (Engine {
            looper: self.looper,
            cx: self.cx,
            rack: self.rack,
            sounds: self.sounds,
            master_volume: match command {
                Command::SetMasterVolume(v) => v.level(SINGLE_ONE),
                _ => before.master_volume,
            },
            master_muted: match command {
                Command::SetMasterMute(on) => on,
                _ => before.master_muted,
            },
            ..*before
        })
        &&& self.cx.when(before.cx)
        &&& self.looper.same_tape(&before.looper)
        &&& self.world() == before.world().commanded(now, before.cx.align, command)
        &&& self.rack.commanded(&before.rack, now, command)
        &&& self.sounds@ == (match apply::sound_of(command) {
            Some(sound) => before.sounds@.push(TimedSound { frame: now, sound }),
            None => before.sounds@,
        })
    }

    /// Apply a command now.
    pub fn apply(&mut self, command: &Command) -> (answer: Applied)
        requires
            old(self).wf(),
        ensures
            final(self).wf(),
            final(self).applied(old(self), *command),
            answer == old(self).world().command_answer(old(self).cx.now, *command),
    {
        let now: Frame = self.cx.now;
        match *command {
            Command::SetMasterVolume(v) => {
                self.master_volume = v.to_level(SINGLE_ONE);
            },
            Command::SetMasterMute(on) => {
                self.master_muted = on;
            },
            _ => {},
        }
        if let Some(sound) = sound(command) {
            self.sounds.push(TimedSound { frame: now, sound });
        }
        self.rack.command(now, command);
        self.looper.command(&mut self.cx, command)
    }
}

/// A command that waits, as it is held: from the frame it waits for, the next one at the earliest.
pub open spec fn held_again(p: Pending, answer: Applied, f: Frame) -> Option<Pending> {
    match answer {
        Applied::Done => None,
        Applied::WaitUntil(at) => Some(
            Pending { frame: grid::max_int(at as int, f + 1) as Frame, held: true, ..p },
        ),
        Applied::Held(at, command) => Some(
            Pending { frame: grid::max_int(at as int, f + 1) as Frame, held: true, command, ..p },
        ),
    }
}

pub open spec fn with_held(table: Seq<Option<Pending>>, p: Option<Pending>) -> Seq<Option<Pending>> {
    match p {
        Some(p) => pending::with_pending(table, p),
        None => table,
    }
}

impl Engine {
    /// The command of slot `k` run, and what it brought due.
    pub open spec fn stepped(&self, before: &Engine, k: int) -> bool {
        let f = before.cx.now;
        let p = before.table.slots@[k]->0;
        let back = held_again(p, before.world().command_answer(f, p.command), f);
        &&& pending::runs_next(before.table.slots@, f, k)
        &&& exists|a: Engine, b: Engine, c: Engine|
            {
                &&& a == (Engine { table: Table { slots: a.table.slots, ..before.table }, ..*before })
                &&& a.table.slots@ == before.table.slots@.update(k, None)
                &&& #[trigger] b.applied(&a, p.command)
                &&& c == (Engine { table: Table { slots: c.table.slots, ..b.table }, ..b })
                &&& c.table.slots@ == with_held(b.table.slots@, back)
                &&& #[trigger] self.evented(&c)
            }
    }

    /// Run the command of slot `k`.
    fn step(&mut self, k: usize)
        requires
            old(self).wf(),
            pending::runs_next(old(self).table.slots@, old(self).cx.now, k as int),
        ensures
            final(self).wf(),
            final(self).stepped(old(self), k as int),
            final(self).cx.when(old(self).cx),
            *final(self) == (Engine {
                looper: final(self).looper,
                cx: final(self).cx,
                rack: final(self).rack,
                sounds: final(self).sounds,
                table: final(self).table,
                master_volume: final(self).master_volume,
                master_muted: final(self).master_muted,
                ..*old(self)
            }),
            pending::due_count(final(self).table.slots@, old(self).cx.now, MAX_PENDING as int) < pending::due_count(
                old(self).table.slots@,
                old(self).cx.now,
                MAX_PENDING as int,
            ),
            old(self).nothing_due() ==> final(self).nothing_due(),
    {
        let f: Frame = self.cx.now;
        let p: Pending = self.table.slots[k].unwrap();
        self.table.slots[k] = None;
        let ghost a = *self;
        let answer: Applied = self.apply(&p.command);
        let ghost b = *self;
        let back: Option<Pending> = match answer {
            Applied::Done => None,
            Applied::WaitUntil(at) => {
                let frame: Frame = if at > f + 1 {
                    at
                } else {
                    f + 1
                };
                Some(Pending { frame, held: true, ..p })
            },
            Applied::Held(at, command) => {
                let frame: Frame = if at > f + 1 {
                    at
                } else {
                    f + 1
                };
                Some(Pending { frame, held: true, command, ..p })
            },
        };
        proof {
            pending::lemma_first_free(self.table.slots@);
            assert(self.table.slots@[k as int] is None);
        }
        if let Some(p) = back {
            self.table.insert(p);
        }
        let ghost c = *self;
        proof {
            pending::lemma_one_fewer(old(self).table.slots@, f, k as int, back);
        }
        self.events();
        assert(b.applied(&a, p.command));
        assert(self.evented(&c));
        proof {
            if old(self).nothing_due() {
                let w = old(self).world();
                w.lemma_on_time(f);
                assert(a.world() == w);
                w.lemma_commanded_on_time(f, old(self).cx.align, p.command);
                self.world().lemma_all_past(f);
            }
        }
    }

    /// Nothing is scheduled for this frame or an earlier one.
    pub open spec fn nothing_due(&self) -> bool {
        forall|g: Frame| #[trigger] self.world().scheduled(g) ==> self.cx.now < g
    }
}

/// One command was run.
pub open spec fn ran_one(a: &Engine, b: &Engine) -> bool {
    exists|k: int| #[trigger] b.stepped(a, k)
}

/// Each engine of the trace ran one command more.
pub open spec fn runs_on(trace: Seq<Engine>) -> bool {
    forall|k: int| #![trigger trace[k]] 0 <= k < trace.len() - 1 ==> ran_one(&trace[k], &trace[k + 1])
}

/// The end of the render quantum frame `f` is in, on the clock that skips what the device skipped.
pub open spec fn quantum_end(f: int, skipped: int) -> int {
    f - grid::pos_in_loop(f, skipped, QUANTUM as int) + QUANTUM
}

impl Engine {
    /// The commands that may run now were run, in the order they were sent, until none was left.
    pub open spec fn ran(&self, before: &Engine) -> bool {
        &&& exists|trace: Seq<Engine>| #[trigger]
            runs_on(trace) && trace.len() > 0 && trace[0] == *before && trace.last() == *self
        &&& forall|k: int| !(#[trigger] pending::may_run(self.table.slots@, self.cx.now, k))
        &&& before.nothing_due() ==> self.nothing_due()
    }

    /// Run the commands that may run now.
    fn run_due(&mut self)
        requires
            old(self).wf(),
        ensures
            final(self).wf(),
            final(self).ran(old(self)),
            final(self).cx.when(old(self).cx),
            final(self).stays(old(self)),
    {
        let f: Frame = self.cx.now;
        let ghost mut trace: Seq<Engine> = seq![*self];
        let mut next: Option<usize> = self.table.due(f);
        while next.is_some()
            invariant
                self.wf(),
                f == old(self).cx.now,
                self.cx.when(old(self).cx),
                self.stays(old(self)),
                old(self).nothing_due() ==> self.nothing_due(),
                runs_on(trace),
                trace.len() > 0,
                trace[0] == *old(self),
                trace.last() == *self,
                next matches Some(k) ==> pending::runs_next(self.table.slots@, f, k as int),
                next is None ==> forall|j: int| !(#[trigger] pending::may_run(self.table.slots@, f, j)),
            decreases pending::due_count(self.table.slots@, f, MAX_PENDING as int),
        {
            let k: usize = next.unwrap();
            let ghost before = *self;
            self.step(k);
            proof {
                assert(self.stepped(&before, k as int));
                let longer = trace.push(*self);
                assert forall|j: int| #![trigger longer[j]] 0 <= j < longer.len() - 1 implies ran_one(
                    &longer[j],
                    &longer[j + 1],
                ) by {
                    if j < trace.len() - 1 {
                        assert(ran_one(&trace[j], &trace[j + 1]));
                    } else {
                        assert(longer[j] == before);
                    }
                }
                trace = longer;
            }
            next = self.table.due(f);
        }
        assert(runs_on(trace) && trace[0] == *old(self) && trace.last() == *self);
    }

    /// The block, the rings and the session are those of before.
    pub open spec fn stays(&self, before: &Engine) -> bool {
        *self == (Engine {
            looper: self.looper,
            cx: self.cx,
            rack: self.rack,
            sounds: self.sounds,
            table: self.table,
            master_volume: self.master_volume,
            master_muted: self.master_muted,
            ..*before
        })
    }

    /// The beats due now sounded and said.
    pub open spec fn beaten(&self, before: &Engine) -> bool {
        &&& *self == (Engine { cx: self.cx, ..*before })
        &&& self.cx.when(before.cx)
        &&& self.world() == before.world().beaten(
            before.cx.now,
            before.cx.clock.beats_left(before.cx.now) + 1,
        )
        &&& (self.cx.clock.pulse matches Some(p) ==> p.next_at() > before.cx.now)
    }

    fn beat(&mut self)
        requires
            old(self).wf(),
        ensures
            final(self).wf(),
            final(self).beaten(old(self)),
    {
        let f: Frame = self.cx.now;
        let ghost w0 = self.world();
        let ghost n0 = self.cx.clock.beats_left(f) + 1;
        let ghost mut rounds: nat = n0;
        let mut more: bool = true;
        while more
            invariant
                self.wf(),
                f == old(self).cx.now,
                self.cx.when(old(self).cx),
                *self == (Engine { cx: self.cx, ..*old(self) }),
                w0 == old(self).world(),
                n0 == old(self).cx.clock.beats_left(f) + 1,
                more ==> w0.beaten(f, n0) == self.world().beaten(f, rounds),
                more ==> rounds > self.cx.clock.beats_left(f),
                !more ==> w0.beaten(f, n0) == self.world(),
                !more ==> (self.cx.clock.pulse matches Some(p) ==> p.next_at() > f),
            decreases
                rounds,
                if more {
                    1int
                } else {
                    0int
                },
        {
            let until: Option<Frame> = self.looper.transport_until(&self.cx);
            let ghost w = self.world();
            proof {
                if self.cx.clock.due_beat(f, until) is Some {
                    self.cx.clock.lemma_one_beat_fewer(f, until);
                }
            }
            match self.cx.clock.fire_due(f, until) {
                None => {
                    more = false;
                    proof {
                        w.lemma_settings(self.world(), f);
                    }
                },
                Some(beat) => {
                    self.cx.feed.push(
                        Event::Beat {
                            frame: f,
                            beat_in_bar: beat.beat_in_bar,
                            count_left: beat.count_left,
                            clicked: beat.clicked,
                        },
                    );
                    proof {
                        w.lemma_settings(self.world(), f);
                        rounds = (rounds - 1) as nat;
                    }
                },
            }
        }
    }

    /// Where a chunk that starts now ends: at the block's end, the render quantum's, the next command's
    /// frame, the next scheduled looper event or the next beat, whichever is first.
    pub open spec fn chunk_end(&self, next: int) -> bool {
        let f = self.cx.now;
        &&& f < next <= self.next_frame
        &&& next <= quantum_end(f as int, self.skipped as int)
        &&& forall|k: int, g: Frame|
            0 <= k < MAX_PENDING && #[trigger] pending::waits_at(self.table.slots@[k], f, false, g) ==> next <= g
        &&& (forall|g: Frame| #[trigger] self.world().scheduled(g) ==> f < g) ==> forall|g: Frame| #[trigger]
            self.world().scheduled(g) ==> next <= g
        &&& self.cx.clock.pulse is Some && self.cx.clock.pulse->0.next_at() > f ==> next
            <= self.cx.clock.pulse->0.next_at()
        &&& {
            ||| next == self.next_frame
            ||| next == quantum_end(f as int, self.skipped as int)
            ||| exists|k: int|
                0 <= k < MAX_PENDING && pending::waits_at(#[trigger] self.table.slots@[k], f, false, next as Frame)
            ||| self.world().scheduled(next as Frame)
            ||| self.cx.clock.pulse is Some && self.cx.clock.pulse->0.next_at() == next
        }
    }

    fn plan_chunk(&self) -> (next: Frame)
        requires
            self.wf(),
            self.cx.now < self.next_frame,
        ensures
            self.chunk_end(next as int),
    {
        let f: Frame = self.cx.now;
        let pos: Frame = loop_pos(f, self.skipped, QUANTUM);
        let quantum: Frame = f - pos + QUANTUM;
        let mut next: Frame = if quantum < self.next_frame {
            quantum
        } else {
            self.next_frame
        };
        let held: Option<Frame> = self.table.first_pending(f);
        if let Some(at) = held {
            if at < next {
                next = at;
            }
        }
        let due: Option<Frame> = self.looper.next_event(&self.cx);
        if let Some(at) = due {
            if at > f && at < next {
                next = at;
            }
        }
        let beat: Option<Frame> = self.cx.clock.next_beat_frame();
        if let Some(at) = beat {
            if at > f && at < next {
                next = at;
            }
        }
        next
    }

    /// The jobs as far as they owe to be by a frame.
    pub open spec fn advanced(&self, before: &Engine, until: Frame) -> bool {
        &&& *self == (Engine { looper: self.looper, ..*before })
        &&& self.world() == (World {
            jobs: looper::jobs_advanced(before.world().jobs, until),
            ..before.world()
        })
        &&& self.looper.pcm() == looper::pcm_advanced(
            before.looper.pcm(),
            before.world().jobs,
            until,
            before.world().jobs.len() as int,
        )
        &&& self.looper.job_step_max == looper::most_advanced(
            before.looper.job_step_max as int,
            before.world().jobs,
            until,
            before.world().jobs.len() as int,
        )
        &&& self.looper.told_as(&before.looper)
    }

    fn advance_jobs(&mut self, until: Frame)
        requires
            old(self).wf(),
            grid::near(until as int),
        ensures
            final(self).wf(),
            final(self).advanced(old(self), until),
    {
        self.looper.advance_jobs(&self.cx, until);
        proof {
            self.session.lemma_wf_later(old(self).past(), self.past(), self.config.capacity as int);
        }
    }

    /// Everything that happens on this frame, in its order: what is scheduled, the commands and what they
    /// bring due, the beats, and what of it is news; then the jobs are as far as they owe by the chunk's
    /// end.
    pub open spec fn chunk_opened(&self, before: &Engine, next: Frame) -> bool {
        exists|a: Engine, b: Engine, c: Engine, d: Engine|
            {
                &&& #[trigger] a.evented(before)
                &&& #[trigger] b.ran(&a)
                &&& #[trigger] c.beaten(&b)
                &&& #[trigger] d.published(&c)
                &&& d.chunk_end(next as int)
                &&& self.advanced(&d, next)
            }
    }

    /// Open the chunk that starts now; what it gives back is the frame it ends at, unless AUTO triggers
    /// before.
    pub fn open_chunk(&mut self) -> (next: Frame)
        requires
            old(self).wf(),
            old(self).cx.now < old(self).next_frame,
        ensures
            final(self).wf(),
            final(self).chunk_opened(old(self), next),
            final(self).cx.now == old(self).cx.now,
            final(self).next_frame == old(self).next_frame,
            final(self).block == old(self).block,
            old(self).cx.now < next <= old(self).next_frame,
            forall|k: int| !(#[trigger] pending::may_run(final(self).table.slots@, final(self).cx.now, k)),
            final(self).cx.clock.pulse matches Some(p) ==> p.next_at() > final(self).cx.now,
            (forall|g: Frame| #[trigger] old(self).world().scheduled(g) ==> old(self).cx.now <= g) ==> forall|
                g: Frame,
            | #[trigger] final(self).world().scheduled(g) ==> next <= g,
    {
        proof {
            if self.world().none_before(self.cx.now as int) {
                self.world().lemma_timely(self.cx.now);
            }
        }
        self.events();
        let ghost a = *self;
        self.run_due();
        let ghost b = *self;
        self.beat();
        let ghost c = *self;
        self.publish();
        let ghost d = *self;
        let next: Frame = self.plan_chunk();
        self.advance_jobs(next);
        assert(a.evented(old(self)));
        assert(b.ran(&a));
        assert(c.beaten(&b));
        assert(d.published(&c));
        proof {
            if old(self).world().none_before(old(self).cx.now as int) {
                a.world().lemma_all_past(a.cx.now);
                assert(b.nothing_due());
                b.world().lemma_same_schedule(d.world());
                assert(d.nothing_due());
                d.world().lemma_same_schedule(self.world());
            }
        }
        next
    }

    /// How far the slots render in this call: up to the next frame a slot command waits for, the block's
    /// end at the latest, and the chunk's end at least.
    pub fn slots_until(&self, next: Frame) -> (until: Frame)
        requires
            self.wf(),
            self.cx.now < next <= self.next_frame,
        ensures
            next <= until <= self.next_frame,
            forall|k: int, g: Frame|
                0 <= k < MAX_PENDING && #[trigger] pending::waits_at(self.table.slots@[k], self.cx.now, true, g)
                    ==> until <= grid::max_int(g as int, next as int),
            until == self.next_frame || exists|k: int, g: Frame|
                0 <= k < MAX_PENDING && #[trigger] pending::waits_at(self.table.slots@[k], self.cx.now, true, g) && until
                    == grid::max_int(g as int, next as int),
    {
        let until: Frame = match self.table.first_slot_pending(self.cx.now) {
            Some(at) => if at < self.next_frame {
                at
            } else {
                self.next_frame
            },
            None => self.next_frame,
        };
        if until > next {
            until
        } else {
            next
        }
    }

    /// The slots rendered up to a frame: their notes were heard.
    pub fn slots_rendered(&mut self, until: Frame)
        requires
            old(self).wf(),
            old(self).rack.cursor <= until <= old(self).next_frame,
        ensures
            final(self).wf(),
            *final(self) == (Engine { rack: final(self).rack, ..*old(self) }),
            final(self).rack.cursor == until,
            final(self).rack.target == old(self).rack.target,
            final(self).rack.events_dropped == old(self).rack.events_dropped,
            final(self).rack.protocol_errors == old(self).rack.protocol_errors,
            forall|i: int|
                0 <= i < crate::api::SLOT_COUNT ==> (#[trigger] final(self).rack.slots@[i]).same_unit(
                    &old(self).rack.slots@[i],
                ) && final(self).rack.slots@[i].held@ == old(self).rack.slots@[i].held@
                    && final(self).rack.slots@[i].events@.len() == 0,
    {
        self.rack.rendered(until - self.rack.cursor);
    }

    /// AUTO triggered on the sample before frame `at`: its take begins, and the chunk ends there.
    pub fn begin_take(&mut self, at: Frame, active: Option<usize>)
        requires
            old(self).wf(),
            old(self).world().deck.rec is Some,
            old(self).world().rec_lane().auto_armed,
            old(self).cx.now <= at <= old(self).next_frame,
            active matches Some(a) ==> a <= old(self).world().ear.heard.len(),
        ensures
            final(self).wf(),
            *final(self) == (Engine { looper: final(self).looper, cx: final(self).cx, ..*old(self) }),
            final(self).cx.now == at,
            final(self).cx.align == old(self).cx.align,
            final(self).looper.job_step_max == old(self).looper.job_step_max,
            final(self).looper.told_as(&old(self).looper),
            ({
                let w = old(self).world();
                let i = w.deck.rec->0.lane as int;
                let live = w.rec_lane().live as int;
                let from = w.ear.onset(active);
                let frames = grid::min_int(w.ear.heard.len() - from, w.deck.capacity as int);
                let (before, after) = (old(self).looper.pcm(), final(self).looper.pcm());
                let kept = (World { ear: crate::autorec::Ear { copied: frames as nat, ..w.ear }, ..w }).with_lane(
                    i,
                    crate::deck::Lane { written: frames as Frame, ..w.lane(i) },
                );
                &&& final(self).world() == kept.auto_begun(
                    old(self).cx.now,
                    old(self).cx.align,
                    (at - frames) as Frame,
                )
                &&& w.none_before(at as int) ==> final(self).world().none_before(at as int)
                &&& after == before.update(live, after[live])
                &&& after[live] == w.ear.heard.subrange(from, from + frames) + before[live].subrange(
                    frames,
                    w.deck.capacity as int,
                )
            }),
    {
        self.looper.begin_take(&mut self.cx, at, active);
        self.cx.now = at;
        proof {
            let w = old(self).world();
            w.lemma_rec(old(self).cx.now);
            w.lemma_lane(old(self).cx.now, w.deck.rec->0.lane as int);
            w.lemma_take_frames();
            w.lemma_look_back_fits();
            w.lemma_begun_schedule(self.world(), at);
            self.session.lemma_wf_later(old(self).past(), self.past(), self.config.capacity as int);
        }
    }

    /// A chunk closed at a frame, the record tap captured from the frame it started at.
    pub open spec fn chunk_closed(&self, before: &Engine, from: Frame, next: Frame, frames: int) -> bool {
        &&& *self == (Engine { looper: self.looper, cx: self.cx, ..*before })
        &&& self.cx == (Cx { now: next, ..before.cx })
        &&& self.world() == before.world().captured(from, frames)
        &&& self.looper.job_step_max == before.looper.job_step_max
        &&& self.looper.told_as(&before.looper)
    }

    /// Close a chunk: `input` is the record tap from frame `from` up to `next`. A take copies its part of
    /// it, an overdub sums it onto its loop with `mix`.
    pub fn close_chunk<F: Fn(Single, Single) -> Single>(
        &mut self,
        from: Frame,
        next: Frame,
        input: &Vec<Single>,
        mix: &F,
    )
        requires
            old(self).wf(),
            old(self).block <= from <= next <= old(self).next_frame,
            old(self).cx.now <= next,
            input@.len() == next - from,
            forall|x: Single, y: Single| call_requires(*mix, (x, y)),
        ensures
            final(self).wf(),
            final(self).chunk_closed(old(self), from, next, input@.len() as int),
            forall|g: Frame| #[trigger] final(self).world().scheduled(g) ==> old(self).world().scheduled(g),
            looper::audio::taped(
                *mix,
                old(self).world(),
                from,
                input@,
                old(self).looper.pcm(),
                final(self).looper.pcm(),
            ),
    {
        self.looper.capture(&self.cx, from, input, mix);
        let ghost w = self.world();
        let ghost was = self.cx.now;
        self.cx.now = next;
        proof {
            w.lemma_inv_later(was, next);
            self.session.lemma_wf_later(old(self).past(), self.past(), self.config.capacity as int);
            if old(self).world().deck.rec is Some {
                old(self).world().lemma_rec(was);
            }
            old(self).world().lemma_same_schedule(self.world());
        }
    }
}

} // verus!
