//! The looper: the five lanes and their buffers, the single recorder (a take, a RETAKE roll or an
//! overdub), every EMPTY → RECORDING → PLAYING ⇄ OVERDUBBING (+ STOPPED) transition, the master loop
//! (its length and grid anchor), the action gates with their refusals, and the block jobs that move
//! loop-sized data.
//!
//! One clock: input frame `x` is captured at device frame `x`, and a lane plays loop position
//! `(f - anchor) mod master` at device frame `f`. A take starts `align` frames after its downbeat (the
//! driver's input + output latency, plus the plugin's), so audio played to the click lands on the grid;
//! an overdub sums input frame `x` onto position `(x - align - anchor) mod master`, in place, which is
//! at or behind the read head, so a layer is heard from the next pass on.
//!
//! A later take that FIXED makes longer than the master multiplies it: the take becomes the new master,
//! whole old masters long, and block jobs repeat the other loops to its length. Until its jobs are done a
//! lane plays round the shorter loop that its buffer holds, which sounds the same.
//!
//! Buffers are a pool allocated once: each lane owns a live and a spare buffer, plus one free buffer the
//! recorder borrows (a RETAKE's kept pass, an overdub's previous undo target). Undo swaps a lane's live
//! and spare; a kept retake pass swaps in from the free buffer; reverse is an index-mapping flag. What
//! must be copied is a block job (see [`Job`]); nothing does loop-sized work in one callback.

use vstd::prelude::*;

use crate::api::{LaneInfo, TRACK_COUNT};
use crate::autorec::{Detector, DEFAULT_SENSITIVITY};
use crate::clock::MIN_SAMPLE_RATE;
use crate::control::{Control, Cx};
use crate::deck;
use crate::deck::{Deck, Job, Lane, World, BUFFER_COUNT};
use crate::float::Single;
use crate::grid;
use crate::grid::{Frame, LOOP_LIMIT};
use crate::overview::Overview;
use crate::pool;
use crate::pool::Pool;

pub use crate::deck::{job_frames, Applied, JOB_RATE, MAX_FIXED_BARS};

pub mod audio;
pub mod changes;
pub mod commands;
pub mod commits;
pub mod gestures;
pub mod keeping;
pub mod laws;
pub mod presses;
pub mod running;
pub mod session;
pub mod starts;
pub mod taking;
use crate::tasks;
use crate::timely;

verus! {

/// What a publish says of the transport.
#[derive(Clone, Copy, Debug, PartialEq, Eq, Structural)]
pub struct Transport {
    pub master: Frame,
    pub bpm: u32,
    pub locked: bool,
}

pub struct Looper {
    pub control: Control,
    pub pool: Pool,
    /// The most buffer positions one job moved in one step: what "no loop-sized work in one callback"
    /// is checked against.
    pub job_step_max: Frame,
    pub published: [Option<LaneInfo>; TRACK_COUNT],
    pub published_transport: Option<Transport>,
    pub overview: Overview,
}

impl Deck {
    /// A looper before anything: every lane EMPTY with its two buffers, the eleventh free.
    pub open spec fn fresh(self, sample_rate: u32, capacity: Frame) -> bool {
        &&& self.sample_rate == sample_rate
        &&& self.capacity == capacity
        &&& self.free == 10
        &&& forall|i: int|
            0 <= i < TRACK_COUNT ==> #[trigger] self.lanes@[i] == Lane::blank((2 * i) as usize, (2 * i + 1) as usize)
        &&& self.rec is None
        &&& self.master == 0
        &&& self.anchor == 0
        &&& !self.loop_end_stop
        &&& !self.fixed_length
        &&& self.fixed_bars == 4
        &&& !self.retake
        &&& !self.auto_record
        &&& self.auto_sensitivity == DEFAULT_SENSITIVITY
        &&& self.selected == 0
        &&& self.clear_armed is None
    }

    /// A fresh deck keeps the invariant.
    proof fn lemma_fresh(self, sample_rate: u32, capacity: Frame, now: Frame)
        requires
            self.fresh(sample_rate, capacity),
            capacity >= 0,
        ensures
            self.pool_ok(),
            self.lanes_ok(),
            self.rec_ok(now),
            deck::jobs_ok(self, Seq::empty()),
            deck::whole_ok(self, Seq::empty()),
            tasks::tasks_ok(self, Seq::empty(), now),
            tasks::hand_ok(self),
    {
        tasks::lemma_tasks_none(self, Seq::empty(), now);
        reveal(deck::whole_ok);
        reveal(Deck::pool_ok);
        reveal(Deck::lanes_ok);
        reveal(Deck::rec_ok);
        reveal(deck::jobs_ok);
        assert forall|k: int| 0 <= k < BUFFER_COUNT implies #[trigger] self.owner(k) == (if k < 5 {
            2 * k
        } else if k < 10 {
            2 * (k - 5) + 1
        } else {
            10
        }) by {
            if k < 5 {
                assert(self.lanes@[k] == Lane::blank((2 * k) as usize, (2 * k + 1) as usize));
            } else if k < 10 {
                assert(self.lanes@[k - 5] == Lane::blank((2 * (k - 5)) as usize, (2 * (k - 5) + 1) as usize));
            }
        }
        assert forall|j: int, k: int| 0 <= j < k < BUFFER_COUNT implies #[trigger] self.owner(j)
            != #[trigger] self.owner(k) by {
        }
        assert forall|k: int| 0 <= k < TRACK_COUNT implies (#[trigger] self.lanes@[k]).ok(
            self.master,
            self.capacity,
        ) by {
            assert(self.lanes@[k] == Lane::blank((2 * k) as usize, (2 * k + 1) as usize));
        }
    }
}

/// A loop read through its orientation.
pub open spec fn oriented(buf: Seq<Single>, reversed: bool, frames: int) -> Seq<Single> {
    if reversed {
        buf.subrange(0, frames).reverse()
    } else {
        buf.subrange(0, frames)
    }
}

/// The first `period` frames of a buffer, round and round.
pub open spec fn repeated(buf: Seq<Single>, period: int, frames: int) -> Seq<Single> {
    Seq::new(frames as nat, |p: int| buf[p % period])
}

/// The buffers once the jobs before slot `k` have come as far as they owe by a frame.
pub open spec fn pcm_advanced(pcm: Seq<Seq<Single>>, jobs: Seq<Option<Job>>, until: Frame, k: int) -> Seq<Seq<Single>>
    decreases k,
{
    if k <= 0 {
        pcm
    } else {
        let before = pcm_advanced(pcm, jobs, until, k - 1);
        match jobs[k - 1] {
            Some(job) if job.owed(until) > job.progress => job.moved(before, job.progress as int, job.owed(until)),
            _ => before,
        }
    }
}

/// The buffers once the jobs from slot `k` on that are done by `now` have run to their ends.
pub open spec fn pcm_completed(pcm: Seq<Seq<Single>>, jobs: Seq<Option<Job>>, now: Frame, k: int) -> Seq<Seq<Single>>
    decreases jobs.len() - k,
{
    if k >= jobs.len() {
        pcm
    } else {
        let next = match jobs[k] {
            Some(job) if job.done_at() <= now && job.progress < job.visit.span => job.moved(
                pcm,
                job.progress as int,
                job.visit.span as int,
            ),
            _ => pcm,
        };
        pcm_completed(next, jobs, now, k + 1)
    }
}

/// The most positions one step moved, after a step from `from` to `to`.
pub open spec fn most_after(most: int, from: int, to: int) -> int {
    if to > from {
        grid::max_int(most, to - from)
    } else {
        most
    }
}

/// The most positions one step moved once the jobs before slot `k` have come as far as they owe by a frame.
pub open spec fn most_advanced(most: int, jobs: Seq<Option<Job>>, until: Frame, k: int) -> int
    decreases k,
{
    if k <= 0 {
        most
    } else {
        let before = most_advanced(most, jobs, until, k - 1);
        match jobs[k - 1] {
            Some(job) => most_after(before, job.progress as int, job.owed(until)),
            None => before,
        }
    }
}

/// The most positions one step moved once the jobs from slot `k` on that are done by `now` have run to
/// their ends.
pub open spec fn most_completed(most: int, jobs: Seq<Option<Job>>, now: Frame, k: int) -> int
    decreases jobs.len() - k,
{
    if k >= jobs.len() {
        most
    } else {
        let next = match jobs[k] {
            Some(job) if job.done_at() <= now => most_after(most, job.progress as int, job.visit.span as int),
            _ => most,
        };
        most_completed(next, jobs, now, k + 1)
    }
}

/// A job table as far as it owes to be by a frame.
pub open spec fn jobs_advanced(jobs: Seq<Option<Job>>, until: Frame) -> Seq<Option<Job>> {
    Seq::new(
        jobs.len(),
        |k: int|
            match jobs[k] {
                Some(job) => Some(job.advanced(until)),
                None => None,
            },
    )
}

impl Looper {
    pub open spec fn world(&self, cx: Cx) -> World {
        self.control.world(cx)
    }

    pub open spec fn pcm(&self) -> Seq<Seq<Single>> {
        self.pool.pcm()
    }

    /// The looper's invariant, at a moment.
    pub open spec fn ready(&self, cx: Cx) -> bool {
        &&& self.control.ready(cx)
        &&& self.pool.wf(self.control.deck.capacity as int)
    }

    /// Nothing but the control state is another.
    pub open spec fn same_tape(&self, before: &Looper) -> bool {
        &&& self.pool == before.pool
        &&& self.job_step_max == before.job_step_max
        &&& self.told_as(before)
    }

    /// Nothing was published: what was told last stands.
    pub open spec fn told_as(&self, before: &Looper) -> bool {
        &&& self.published == before.published
        &&& self.published_transport == before.published_transport
        &&& self.overview == before.overview
    }

    /// A world was published: its lanes, its transport and where its loops lie were told.
    pub open spec fn told(&self, w: World) -> bool {
        &&& self.published@ == Seq::new(TRACK_COUNT as nat, |k: int| Some(w.info(k)))
        &&& self.published_transport == Some(audio::transport_of(w))
        &&& self.overview.anchor() == w.deck.anchor
        &&& self.overview.views() == Seq::new(TRACK_COUNT as nat, |k: int| audio::view_of(w.lane(k)))
    }

    /// Five empty lanes over silent buffers, no job, and nothing told of them yet.
    pub open spec fn fresh(&self, sample_rate: u32, capacity: Frame) -> bool {
        &&& self.control.deck.fresh(sample_rate, capacity)
        &&& self.control.jobs@.len() == 0
        &&& self.control.detector.ear() == Detector::fresh(sample_rate)
        &&& self.job_step_max == 0
        &&& self.published@ == Seq::new(TRACK_COUNT as nat, |i: int| None::<LaneInfo>)
        &&& self.published_transport is None
        &&& self.overview.anchor() == 0
        &&& self.overview.views() == Seq::new(TRACK_COUNT as nat, |i: int| crate::overview::LaneView::nothing())
        &&& forall|b: int, p: int|
            0 <= b < BUFFER_COUNT && 0 <= p < capacity ==> (#[trigger] self.pcm()[b][p]) == (Single { bits: 0 })
    }

    pub fn new(sample_rate: u32, capacity: Frame) -> (looper: Self)
        requires
            MIN_SAMPLE_RATE <= sample_rate,
            6 * sample_rate <= capacity <= LOOP_LIMIT,
            capacity <= usize::MAX,
        ensures
            looper.fresh(sample_rate, capacity),
            forall|cx: Cx|
                cx.ok() && grid::near(cx.now as int) && cx.clock.wf() && cx.clock.sample_rate == sample_rate
                    ==> #[trigger] looper.ready(cx),
    {
        let lanes: [Lane; TRACK_COUNT] = [
            Lane::new(0, 1),
            Lane::new(2, 3),
            Lane::new(4, 5),
            Lane::new(6, 7),
            Lane::new(8, 9),
        ];
        let deck = Deck {
            sample_rate,
            capacity,
            free: 10,
            lanes,
            rec: None,
            master: 0,
            anchor: 0,
            loop_end_stop: false,
            fixed_length: false,
            fixed_bars: 4,
            retake: false,
            auto_record: false,
            auto_sensitivity: DEFAULT_SENSITIVITY,
            selected: 0,
            clear_armed: None,
        };
        let published: [Option<LaneInfo>; TRACK_COUNT] = [None, None, None, None, None];
        let looper = Looper {
            control: Control { deck, jobs: Vec::with_capacity(4 * TRACK_COUNT), detector: Detector::new(sample_rate) },
            pool: Pool::new(capacity as usize),
            job_step_max: 0,
            published,
            published_transport: None,
            overview: Overview::new(),
        };
        proof {
            assert(published@ =~= Seq::new(TRACK_COUNT as nat, |i: int| None::<LaneInfo>));
            assert forall|cx: Cx|
                cx.ok() && grid::near(cx.now as int) && cx.clock.wf() && cx.clock.sample_rate
                    == sample_rate implies #[trigger] looper.ready(cx) by {
                deck.lemma_fresh(sample_rate, capacity, cx.now);
                assert(looper.control.jobs@ =~= Seq::empty());
            }
        }
        looper
    }

    // ── Read-only views ────────────────────────────────────────────────────────────────────────────

    pub fn capacity(&self) -> (capacity: Frame)
        ensures
            capacity == self.control.deck.capacity,
    {
        self.control.deck.capacity
    }

    pub fn master(&self) -> (master: Frame)
        ensures
            master == self.control.deck.master,
    {
        self.control.deck.master
    }

    /// The master grid's anchor: loop position 0 plays at `anchor + k * master`.
    pub fn anchor(&self) -> (anchor: Frame)
        ensures
            anchor == self.control.deck.anchor,
    {
        self.control.deck.anchor
    }

    pub fn selected(&self) -> (i: usize)
        ensures
            i == self.control.deck.selected,
    {
        self.control.deck.selected
    }

    pub fn overview(&self) -> (overview: &Overview)
        ensures
            *overview == self.overview,
    {
        &self.overview
    }

    pub fn info(&self, i: usize) -> (info: LaneInfo)
        requires
            i < TRACK_COUNT,
        ensures
            forall|cx: Cx| info == #[trigger] self.world(cx).info(i as int),
    {
        self.control.info(i)
    }

    /// The recorder's lane and capture window, when one records.
    pub fn recorder(&self) -> (r: Option<(usize, Option<Frame>, Option<Frame>)>)
        ensures
            r is Some <==> self.control.deck.rec is Some,
            r matches Some(r) ==> {
                let rec = self.control.deck.rec->0;
                r.0 == rec.lane && r.1 == rec.start && r.2 == rec.end
            },
    {
        match self.control.deck.rec {
            Some(r) => Some((r.lane, r.start, r.end)),
            None => None,
        }
    }

    /// Frames lane `i` has captured in its take in flight.
    pub fn written(&self, i: usize) -> (frames: Frame)
        requires
            i < TRACK_COUNT,
        ensures
            frames == self.control.deck.lanes@[i as int].written,
    {
        self.control.deck.lanes[i].written
    }

    pub fn volume(&self, i: usize) -> (r: (Single, bool))
        requires
            i < TRACK_COUNT,
        ensures
            r.0 == self.control.deck.lanes@[i as int].volume,
            r.1 == self.control.deck.lanes@[i as int].muted,
    {
        (self.control.deck.lanes[i].volume, self.control.deck.lanes[i].muted)
    }

    /// The committed loop of lane `i` as it plays forward.
    pub open spec fn loop_of(&self, i: int) -> Seq<Single> {
        let t = self.control.deck.lanes@[i];
        oriented(repeated(self.pcm()[t.live as int], t.period as int, t.length as int), t.reversed, t.length as int)
    }

    /// The undo target of lane `i`, oriented.
    pub open spec fn undo_of(&self, i: int) -> Seq<Single> {
        let t = self.control.deck.lanes@[i];
        oriented(
            repeated(self.pcm()[t.spare as int], t.period as int, t.length as int),
            t.spare_reversed,
            t.length as int,
        )
    }

    /// The committed loop of lane `i` as it plays forward: its logical buffer, read through its
    /// orientation (empty before a commit). Not for the audio thread: it allocates.
    pub fn loop_pcm(&self, cx: &Cx, i: usize) -> (pcm: Vec<Single>)
        requires
            i < TRACK_COUNT,
            self.ready(*cx),
        ensures
            pcm@ == self.loop_of(i as int),
    {
        proof {
            self.world(*cx).lemma_lane(cx.now, i as int);
        }
        let t = self.control.deck.lanes[i];
        self.read(t.live, t.reversed, t.period, t.length)
    }

    /// The undo target of lane `i`, oriented, when it has one.
    pub fn undo_pcm(&self, cx: &Cx, i: usize) -> (pcm: Option<Vec<Single>>)
        requires
            i < TRACK_COUNT,
            self.ready(*cx),
        ensures
            pcm is Some <==> self.control.deck.lanes@[i as int].undo_valid,
            pcm matches Some(v) ==> v@ == self.undo_of(i as int),
    {
        proof {
            self.world(*cx).lemma_lane(cx.now, i as int);
        }
        let t = self.control.deck.lanes[i];
        if t.undo_valid {
            Some(self.read(t.spare, t.spare_reversed, t.period, t.length))
        } else {
            None
        }
    }

    /// Lane `i`'s whole live buffer, past its loop too.
    pub fn live_buffer(&self, cx: &Cx, i: usize) -> (buf: &Vec<Single>)
        requires
            i < TRACK_COUNT,
            self.ready(*cx),
        ensures
            buf@ == self.pcm()[self.control.deck.lanes@[i as int].live as int],
    {
        proof {
            self.world(*cx).lemma_lane(cx.now, i as int);
        }
        &self.pool.bufs[self.control.deck.lanes[i].live]
    }

    /// The take in flight on lane `i`: its captured frames, in capture order.
    pub fn take_pcm(&self, cx: &Cx, i: usize) -> (pcm: Vec<Single>)
        requires
            i < TRACK_COUNT,
            self.ready(*cx),
        ensures
            pcm@ == self.pcm()[self.control.deck.lanes@[i as int].live as int].subrange(
                0,
                self.control.deck.lanes@[i as int].written as int,
            ),
    {
        proof {
            self.world(*cx).lemma_lane(cx.now, i as int);
        }
        let t = self.control.deck.lanes[i];
        proof {
            let buf = self.pcm()[t.live as int];
            assert forall|p: int| 0 <= p < t.written implies #[trigger] repeated(buf, t.written as int, t.written as int)[p]
                == buf[p] by {
                vstd::arithmetic::div_mod::lemma_small_mod(p as nat, t.written as nat);
            }
            assert(repeated(buf, t.written as int, t.written as int).subrange(0, t.written as int) =~= buf.subrange(
                0,
                t.written as int,
            ));
        }
        self.read(t.live, false, t.written, t.written)
    }

    fn read(&self, buf: usize, reversed: bool, period: Frame, frames: Frame) -> (pcm: Vec<Single>)
        requires
            buf < BUFFER_COUNT,
            self.pool.wf(self.control.deck.capacity as int),
            0 <= frames <= self.control.deck.capacity,
            frames <= usize::MAX,
            frames > 0 ==> 0 < period <= frames,
        ensures
            pcm@ == oriented(repeated(self.pcm()[buf as int], period as int, frames as int), reversed, frames as int),
    {
        let n: usize = frames as usize;
        let mut pcm: Vec<Single> = Vec::new();
        let ghost whole = oriented(
            repeated(self.pcm()[buf as int], period as int, frames as int),
            reversed,
            frames as int,
        );
        let mut k: usize = 0;
        while k < n
            invariant
                k <= n,
                n == frames,
                buf < BUFFER_COUNT,
                self.pool.wf(self.control.deck.capacity as int),
                frames <= self.control.deck.capacity,
                frames > 0 ==> 0 < period <= frames,
                whole == oriented(
                    repeated(self.pcm()[buf as int], period as int, frames as int),
                    reversed,
                    frames as int,
                ),
                pcm@.len() == k,
                forall|p: int| 0 <= p < k ==> #[trigger] pcm@[p] == whole[p],
            decreases n - k,
        {
            let at: usize = if reversed {
                n - 1 - k
            } else {
                k
            };
            let x: Single = self.pool.bufs[buf][at % period as usize];
            assert(x == whole[k as int]);
            pcm.push(x);
            k = k + 1;
        }
        assert(pcm@ =~= whole);
        pcm
    }

    /// The most buffer positions one block job moved in a single step since the engine started.
    pub fn job_step_max(&self) -> (most: Frame)
        ensures
            most == self.job_step_max,
    {
        self.job_step_max
    }

    pub open spec fn is_busy(&self) -> bool {
        exists|k: int| 0 <= k < self.control.jobs@.len() && (#[trigger] self.control.jobs@[k]) is Some
    }

    /// True while any block job runs.
    pub fn busy(&self) -> (busy: bool)
        ensures
            busy == self.is_busy(),
    {
        let mut k: usize = 0;
        while k < self.control.jobs.len()
            invariant
                k <= self.control.jobs@.len(),
                forall|j: int| 0 <= j < k ==> (#[trigger] self.control.jobs@[j]) is None,
            decreases self.control.jobs@.len() - k,
        {
            if self.control.jobs[k].is_some() {
                assert(self.control.jobs@[k as int] is Some);
                return true;
            }
            k = k + 1;
        }
        false
    }

    // ── Time ───────────────────────────────────────────────────────────────────────────────────────

    /// Move a job as far as it owes to be by a frame; the most one step moved is kept.
    fn run_job(&mut self, cx: &Cx, job: &mut Job, until: Frame)
        requires
            old(self).ready(*cx),
            old(job).wf(old(self).control.deck.capacity as int),
            until == i64::MAX || grid::near(until as int),
        ensures
            final(self).ready(*cx),
            final(self).control == old(self).control,
            final(self).published == old(self).published,
            final(self).published_transport == old(self).published_transport,
            final(self).overview == old(self).overview,
            final(self).pool.grew(&old(self).pool),
            *final(job) == old(job).advanced(until),
            final(job).wf(old(self).control.deck.capacity as int),
            ({
                let (from, to) = (old(job).progress as int, old(job).owed(until));
                if to <= from {
                    final(self).pool == old(self).pool
                } else {
                    final(self).pcm() == old(job).moved(old(self).pcm(), from, to)
                }
            }),
            final(self).job_step_max == most_after(
                old(self).job_step_max as int,
                old(job).progress as int,
                old(job).owed(until),
            ),
    {
        let span: Frame = job.visit.span;
        let target: Frame = if until == i64::MAX {
            span
        } else {
            let owed: Frame = JOB_RATE * (until - job.start);
            if owed < span {
                owed
            } else {
                span
            }
        };
        let from: Frame = job.progress;
        if target <= from {
            return;
        }
        let ghost before = *job;
        self.pool.run(job, target, self.control.deck.capacity);
        job.progress = target;
        if self.job_step_max < target - from {
            self.job_step_max = target - from;
        }
    }

    /// Advance every job to the progress it owes by frame `until`.
    pub fn advance_jobs(&mut self, cx: &Cx, until: Frame)
        requires
            old(self).ready(*cx),
            grid::near(until as int),
        ensures
            final(self).ready(*cx),
            final(self).control.deck == old(self).control.deck,
            final(self).control.detector == old(self).control.detector,
            final(self).pool.grew(&old(self).pool),
            final(self).control.jobs@ == jobs_advanced(old(self).control.jobs@, until),
            final(self).pcm() == pcm_advanced(
                old(self).pcm(),
                old(self).control.jobs@,
                until,
                old(self).control.jobs@.len() as int,
            ),
            final(self).job_step_max == most_advanced(
                old(self).job_step_max as int,
                old(self).control.jobs@,
                until,
                old(self).control.jobs@.len() as int,
            ),
            final(self).told_as(old(self)),
    {
        let ghost jobs = self.control.jobs@;
        let mut k: usize = 0;
        while k < self.control.jobs.len()
            invariant
                k <= self.control.jobs@.len(),
                self.control.jobs@.len() == jobs.len(),
                jobs == old(self).control.jobs@,
                grid::near(until as int),
                self.ready(*cx),
                self.control.deck == old(self).control.deck,
                self.control.detector == old(self).control.detector,
                self.pool.grew(&old(self).pool),
                self.published == old(self).published,
                self.published_transport == old(self).published_transport,
                self.overview == old(self).overview,
                forall|j: int| 0 <= j < k ==> #[trigger] self.control.jobs@[j] == jobs_advanced(jobs, until)[j],
                forall|j: int| k <= j < jobs.len() ==> #[trigger] self.control.jobs@[j] == jobs[j],
                self.pcm() == pcm_advanced(old(self).pcm(), jobs, until, k as int),
                self.job_step_max == most_advanced(old(self).job_step_max as int, jobs, until, k as int),
            decreases jobs.len() - k,
        {
            assert(self.control.jobs@[k as int] == jobs[k as int]);
            match self.control.jobs[k] {
                Some(j) => {
                    let mut job = j;
                    let ghost w = self.world(*cx);
                    proof {
                        w.lemma_job_known(cx.now, k as int);
                    }
                    self.run_job(cx, &mut job, until);
                    self.control.jobs[k] = Some(job);
                    proof {
                        w.lemma_job_advanced(cx.now, k as int, job);
                    }
                },
                None => {},
            }
            k = k + 1;
        }
        assert(self.control.jobs@ =~= jobs_advanced(jobs, until));
    }

    /// The earliest frame something is scheduled for (a window edge, a loop-end stop, a boundary swap,
    /// a job completing); the caller skips what is not after the frame it renders.
    pub fn next_event(&self, cx: &Cx) -> (next: Option<Frame>)
        requires
            self.ready(*cx),
        ensures
            next is None ==> forall|f: Frame| !(#[trigger] self.world(*cx).scheduled(f)),
            next matches Some(n) ==> self.world(*cx).scheduled(n) && forall|f: Frame| #[trigger]
                self.world(*cx).scheduled(f) ==> n <= f,
    {
        self.control.next_event(cx)
    }

    /// Run everything scheduled for `cx.now`.
    pub fn events(&mut self, cx: &mut Cx)
        requires
            old(self).ready(*old(cx)),
        ensures
            final(self).ready(*final(cx)),
            final(cx).when(*old(cx)),
            final(self).control.deck.capacity == old(self).control.deck.capacity,
            final(self).pool.grew(&old(self).pool),
            final(self).world(*final(cx)) == old(self).world(*old(cx)).due(old(cx).now, old(cx).align),
            final(self).pcm() == pcm_completed(
                old(self).pcm(),
                old(self).world(*old(cx)).lanes_due(old(cx).now, 0).jobs,
                old(cx).now,
                0,
            ),
            final(self).job_step_max == most_completed(
                old(self).job_step_max as int,
                old(self).world(*old(cx)).lanes_due(old(cx).now, 0).jobs,
                old(cx).now,
                0,
            ),
            final(self).told_as(old(self)),
            old(self).world(*old(cx)).timely(old(cx).now) ==> final(self).world(*final(cx)).all_past(old(cx).now),
    {
        self.control.lanes_due(cx);
        self.complete_jobs(cx);
        self.control.edges_due(cx);
    }

    /// The jobs that are done: run to their ends, and what each brings about.
    fn complete_jobs(&mut self, cx: &mut Cx)
        requires
            old(self).ready(*old(cx)),
        ensures
            final(self).ready(*final(cx)),
            final(cx).when(*old(cx)),
            final(self).control.deck.capacity == old(self).control.deck.capacity,
            final(self).pool.grew(&old(self).pool),
            ({
                let w = old(self).world(*old(cx));
                &&& final(self).world(*final(cx)) == w.jobs_due(old(cx).now, 0, w.jobs.len() as int)
                &&& final(self).pcm() == pcm_completed(old(self).pcm(), w.jobs, old(cx).now, 0)
                &&& final(self).job_step_max == most_completed(
                    old(self).job_step_max as int,
                    w.jobs,
                    old(cx).now,
                    0,
                )
                &&& timely::jobs_past(final(self).control.jobs@, old(cx).now)
                &&& w.lanes_past(old(cx).now) ==> final(self).world(*final(cx)).lanes_past(old(cx).now)
                &&& final(self).control.deck.rec == old(self).control.deck.rec
            }),
            final(self).told_as(old(self)),
    {
        let ghost w0 = self.world(*cx);
        let ghost cx0 = *cx;
        let slots: usize = self.control.jobs.len();
        let mut k: usize = 0;
        while k < slots
            invariant
                k <= slots,
                slots == w0.jobs.len(),
                self.ready(*cx),
                cx.when(cx0),
                self.control.deck.capacity == old(self).control.deck.capacity,
                self.pool.grew(&old(self).pool),
                w0 == old(self).world(*old(cx)),
                self.control.jobs@.len() >= slots,
                forall|j: int|
                    0 <= j < self.control.jobs@.len() && !(k <= j < slots) && (#[trigger] self.control.jobs@[j]) is Some
                        ==> cx0.now < self.control.jobs@[j]->0.done_at(),
                w0.lanes_past(cx0.now) ==> self.world(*cx).lanes_past(cx0.now),
                self.control.deck.rec == w0.deck.rec,
                forall|j: int|
                    k <= j < slots ==> (#[trigger] self.control.jobs@[j]) == w0.jobs[j] || w0.jobs[j] is None
                        && self.control.jobs@[j]->0.done_at() > cx0.now,
                w0.jobs_due(cx0.now, 0, slots as int) == self.world(*cx).jobs_due(cx0.now, k as int, slots as int),
                pcm_completed(old(self).pcm(), w0.jobs, cx0.now, 0) == pcm_completed(
                    self.pcm(),
                    w0.jobs,
                    cx0.now,
                    k as int,
                ),
                most_completed(old(self).job_step_max as int, w0.jobs, cx0.now, 0) == most_completed(
                    self.job_step_max as int,
                    w0.jobs,
                    cx0.now,
                    k as int,
                ),
                self.told_as(old(self)),
            decreases slots - k,
        {
            assert(self.control.jobs@[k as int] == w0.jobs[k as int] || w0.jobs[k as int] is None);
            match self.control.jobs[k] {
                Some(job) => {
                    proof {
                        self.world(*cx).lemma_job_known(cx.now, k as int);
                    }
                    if job.done_frame() <= cx.now {
                        let ghost w = self.world(*cx);
                        self.complete_job(cx, k, job);
                        proof {
                            w.lemma_job_due_calm(cx.now, k as int);
                            if w.lanes_past(cx.now) {
                                w.lemma_quieter(self.world(*cx), cx.now);
                            }
                        }
                    }
                },
                None => {},
            }
            k = k + 1;
        }
        reveal(timely::jobs_past);
    }

    /// The job of slot `k`, which is done.
    fn complete_job(&mut self, cx: &mut Cx, k: usize, job: Job)
        requires
            old(self).ready(*old(cx)),
            k < old(self).control.jobs@.len(),
            old(self).control.jobs@[k as int] == Some(job),
            job.done_at() <= old(cx).now,
        ensures
            final(self).ready(*final(cx)),
            final(cx).when(*old(cx)),
            final(self).control.deck.capacity == old(self).control.deck.capacity,
            final(self).pool.grew(&old(self).pool),
            final(self).world(*final(cx)) == old(self).world(*old(cx)).job_due(old(cx).now, k as int),
            final(self).world(*final(cx)).only_later(old(self).control.jobs@.update(k as int, None), old(cx).now),
            final(self).pcm() == (if job.progress < job.visit.span {
                job.moved(old(self).pcm(), job.progress as int, job.visit.span as int)
            } else {
                old(self).pcm()
            }),
            final(self).job_step_max == most_after(
                old(self).job_step_max as int,
                job.progress as int,
                job.visit.span as int,
            ),
            final(self).told_as(old(self)),
    {
        reveal(World::job_due);
        proof {
            self.world(*cx).lemma_job_known(cx.now, k as int);
        }
        let mut run = job;
        self.run_job(cx, &mut run, i64::MAX);
        let ghost w = self.world(*cx);
        self.control.bring_about(cx, k, &job);
        proof {
            w.lemma_job_due(cx.now, k as int);
            self.world(*cx).lemma_lane(cx.now, job.lane as int);
        }
        self.control.jobs[k] = None;
        self.control.catch_up(cx, job.lane);
    }
}

} // verus!
