//! That every transition of the looper keeps its invariant: no two owners share a buffer, every
//! committed lane is one master long, the recorder's lane (and no other) captures, and every block job
//! stays inside its buffers.

use vstd::prelude::*;

use crate::api::{LaneState, TRACK_COUNT};
use crate::deck;
use crate::deck::{Deck, Job, JobKind, Kind, Lane, Recorder, World, BUFFER_COUNT, JOB_RATE};
use crate::float::SINGLE_ONE_AND_A_HALF;
use crate::grid;
use crate::grid::{Frame, HORIZON, LOOP_LIMIT};
use crate::tasks;

verus! {

// ── The pool ───────────────────────────────────────────────────────────────────────────────────────

/// Owners that keep their buffers keep them apart.
proof fn lemma_pool_same(a: Deck, b: Deck)
    requires
        a.pool_ok(),
        b.free == a.free,
        forall|k: int|
            0 <= k < TRACK_COUNT ==> (#[trigger] b.lanes@[k]).live == a.lanes@[k].live && b.lanes@[k].spare
                == a.lanes@[k].spare,
    ensures
        b.pool_ok(),
{
    reveal(Deck::pool_ok);
    assert forall|k: int| 0 <= k < BUFFER_COUNT implies #[trigger] b.owner(k) == a.owner(k) by {
        if k < 5 {
            assert(b.lanes@[k].live == a.lanes@[k].live);
        } else if k < 10 {
            assert(b.lanes@[k - 5].spare == a.lanes@[k - 5].spare);
        }
    }
    assert forall|j: int, k: int| 0 <= j < k < BUFFER_COUNT implies #[trigger] b.owner(j) != #[trigger] b.owner(k) by {
        assert(a.owner(j) != a.owner(k));
    }
    assert forall|k: int| 0 <= k < BUFFER_COUNT implies 0 <= #[trigger] b.owner(k) < BUFFER_COUNT by {
        assert(0 <= a.owner(k) < BUFFER_COUNT);
    }
}

/// Two owners that swap their buffers keep all apart.
proof fn lemma_pool_swapped(a: Deck, b: Deck, x: int, y: int)
    requires
        a.pool_ok(),
        0 <= x < y < BUFFER_COUNT,
        b.owner(x) == a.owner(y),
        b.owner(y) == a.owner(x),
        forall|k: int| 0 <= k < BUFFER_COUNT && k != x && k != y ==> #[trigger] b.owner(k) == a.owner(k),
    ensures
        b.pool_ok(),
{
    reveal(Deck::pool_ok);
    assert forall|k: int| 0 <= k < BUFFER_COUNT implies 0 <= #[trigger] b.owner(k) < BUFFER_COUNT by {
        assert(0 <= a.owner(k) < BUFFER_COUNT);
        assert(0 <= a.owner(x) < BUFFER_COUNT);
        assert(0 <= a.owner(y) < BUFFER_COUNT);
    }
    assert forall|j: int, k: int| 0 <= j < k < BUFFER_COUNT implies #[trigger] b.owner(j) != #[trigger] b.owner(k) by {
        let p = |n: int|
            if n == x {
                y
            } else if n == y {
                x
            } else {
                n
            };
        assert(b.owner(j) == a.owner(p(j)));
        assert(b.owner(k) == a.owner(p(k)));
        if p(j) < p(k) {
            assert(a.owner(p(j)) != a.owner(p(k)));
        } else {
            assert(a.owner(p(k)) != a.owner(p(j)));
        }
    }
}

// ── Lanes, recorder, jobs ──────────────────────────────────────────────────────────────────────────

/// One lane changed for another that keeps its part.
proof fn lemma_lanes_but_one(a: Deck, b: Deck, i: int)
    requires
        a.lanes_ok(),
        0 <= i < TRACK_COUNT,
        b.master == a.master,
        b.capacity == a.capacity,
        forall|k: int| 0 <= k < TRACK_COUNT && k != i ==> #[trigger] b.lanes@[k] == a.lanes@[k],
        b.lanes@[i].ok(b.master, b.capacity),
    ensures
        b.lanes_ok(),
{
    reveal(Deck::lanes_ok);
    assert forall|k: int| 0 <= k < TRACK_COUNT implies (#[trigger] b.lanes@[k]).ok(b.master, b.capacity) by {
        assert(a.lanes@[k].ok(a.master, a.capacity));
    }
}

/// Lane `i` is the recorder's if and only if it captures, when the others did not.
proof fn lemma_rec_but_one(a: Deck, b: Deck, i: int, now: Frame)
    requires
        a.rec_ok(now),
        0 <= i < TRACK_COUNT,
        a.rec is None || a.rec->0.lane == i,
        b.rec is None || b.rec->0.lane == i,
        forall|k: int| 0 <= k < TRACK_COUNT && k != i ==> #[trigger] b.lanes@[k] == a.lanes@[k],
        b.lanes@[i].is_capturing() <==> b.rec is Some,
        b.rec matches Some(r) ==> r.ok(b.lanes@[i], b.master, b.capacity, now),
    ensures
        b.rec_ok(now),
{
    reveal(Deck::rec_ok);
    assert forall|k: int| 0 <= k < TRACK_COUNT implies ((#[trigger] b.lanes@[k]).is_capturing() <==> b.rec is Some
        && b.rec->0.lane == k) by {
        assert(a.lanes@[k].is_capturing() <==> a.rec is Some && a.rec->0.lane == k);
    }
}

/// A lane that is not the recorder's changed for another that does not capture.
proof fn lemma_rec_elsewhere(a: Deck, b: Deck, i: int, now: Frame)
    requires
        a.rec_ok(now),
        0 <= i < TRACK_COUNT,
        b.rec == a.rec,
        b.master == a.master,
        b.capacity == a.capacity,
        forall|k: int| 0 <= k < TRACK_COUNT && k != i ==> #[trigger] b.lanes@[k] == a.lanes@[k],
        !a.lanes@[i].is_capturing(),
        !b.lanes@[i].is_capturing(),
    ensures
        b.rec_ok(now),
{
    reveal(Deck::rec_ok);
    assert(!(a.rec is Some && a.rec->0.lane == i));
    assert forall|k: int| 0 <= k < TRACK_COUNT implies ((#[trigger] b.lanes@[k]).is_capturing() <==> b.rec is Some
        && b.rec->0.lane == k) by {
        assert(a.lanes@[k].is_capturing() <==> a.rec is Some && a.rec->0.lane == k);
    }
}

/// No discarded layer is being restored.
#[verifier::opaque]
pub open spec fn no_restore(jobs: Seq<Option<Job>>) -> bool {
    forall|k: int| 0 <= k < jobs.len() && (#[trigger] jobs[k]) is Some ==> !(jobs[k]->0.kind is Restore)
}

proof fn lemma_no_restore(deck: Deck, jobs: Seq<Option<Job>>)
    requires
        deck::jobs_ok(deck, jobs),
        deck.rec is Some,
    ensures
        no_restore(jobs),
{
    reveal(deck::jobs_ok);
    reveal(no_restore);
}

/// The same jobs under other lanes: a restored lane still plays its live buffer, and nothing records.
proof fn lemma_jobs_same(a: Deck, b: Deck, jobs: Seq<Option<Job>>)
    requires
        deck::jobs_ok(a, jobs),
        b.capacity == a.capacity,
        forall|k: int|
            0 <= k < TRACK_COUNT && a.lanes@[k].audible.buf == a.lanes@[k].live ==> (#[trigger] b.lanes@[k]).audible.buf
                == b.lanes@[k].live,
        b.rec is Some ==> no_restore(jobs),
    ensures
        deck::jobs_ok(b, jobs),
{
    reveal(deck::jobs_ok);
    reveal(no_restore);
    assert forall|k: int| 0 <= k < jobs.len() && (#[trigger] jobs[k]) is Some implies {
        let job = jobs[k]->0;
        &&& job.wf(b.capacity as int)
        &&& job.kind is Restore ==> b.rec is None && b.lanes@[job.lane as int].audible.buf
            == b.lanes@[job.lane as int].live
    } by {
        let job = jobs[k]->0;
        assert(job.wf(a.capacity as int));
        if job.kind is Restore {
            assert(a.lanes@[job.lane as int].audible.buf == a.lanes@[job.lane as int].live);
            assert(b.lanes@[job.lane as int].audible.buf == b.lanes@[job.lane as int].live);
        }
    }
}

/// Fewer jobs.
proof fn lemma_jobs_fewer(deck: Deck, jobs: Seq<Option<Job>>, fewer: Seq<Option<Job>>)
    requires
        deck::jobs_ok(deck, jobs),
        fewer.len() == jobs.len(),
        forall|k: int| 0 <= k < jobs.len() ==> (#[trigger] fewer[k]) is None || fewer[k] == jobs[k],
    ensures
        deck::jobs_ok(deck, fewer),
        no_restore(jobs) ==> no_restore(fewer),
{
    reveal(deck::jobs_ok);
    reveal(no_restore);
    assert forall|k: int| 0 <= k < fewer.len() && (#[trigger] fewer[k]) is Some implies fewer[k] == jobs[k] by {
    }
}

pub proof fn lemma_first_free(jobs: Seq<Option<Job>>)
    ensures
        0 <= deck::first_free(jobs) <= jobs.len(),
        deck::first_free(jobs) < jobs.len() ==> jobs[deck::first_free(jobs)] is None,
        forall|k: int| 0 <= k < deck::first_free(jobs) ==> (#[trigger] jobs[k]) is Some,
    decreases jobs.len(),
{
    if jobs.len() > 0 && jobs[0] is Some {
        let rest = jobs.subrange(1, jobs.len() as int);
        lemma_first_free(rest);
        let n = deck::first_free(rest);
        if n < rest.len() {
            assert(rest[n] == jobs[n + 1]);
        }
        assert forall|k: int| 0 <= k < 1 + n implies (#[trigger] jobs[k]) is Some by {
            if k > 0 {
                assert(rest[k - 1] == jobs[k]);
            }
        }
    }
}

/// One more job that keeps its part.
proof fn lemma_jobs_more(deck: Deck, jobs: Seq<Option<Job>>, job: Job)
    requires
        deck::jobs_ok(deck, jobs),
        job.wf(deck.capacity as int),
        job.kind is Restore ==> deck.rec is None && deck.lanes@[job.lane as int].audible.buf
            == deck.lanes@[job.lane as int].live,
    ensures
        deck::jobs_ok(deck, deck::with_job(jobs, job)),
        no_restore(jobs) && !(job.kind is Restore) ==> no_restore(deck::with_job(jobs, job)),
{
    reveal(deck::jobs_ok);
    reveal(no_restore);
    lemma_first_free(jobs);
    let more = deck::with_job(jobs, job);
    assert forall|k: int| 0 <= k < more.len() && (#[trigger] more[k]) is Some implies more[k] == Some(job) || k
        < jobs.len() && more[k] == jobs[k] by {
    }
}

/// A command that waits for no job finds none it would have to wait for.
pub proof fn lemma_none_delays(jobs: Seq<Option<Job>>, lane: Option<usize>, needs_free: bool)
    requires
        deck::delay_until(jobs, lane, needs_free) is None,
    ensures
        forall|k: int|
            0 <= k < jobs.len() && (#[trigger] jobs[k]) is Some ==> !jobs[k]->0.delays(lane, needs_free),
        needs_free ==> no_restore(jobs),
    decreases jobs.len(),
{
    reveal(no_restore);
    if jobs.len() > 0 {
        lemma_none_delays(jobs.drop_last(), lane, needs_free);
        assert forall|k: int| 0 <= k < jobs.len() && (#[trigger] jobs[k]) is Some implies !jobs[k]->0.delays(
            lane,
            needs_free,
        ) by {
            if k < jobs.len() - 1 {
                assert(jobs.drop_last()[k] == jobs[k]);
            } else {
                assert(jobs.last() == jobs[k]);
            }
        }
    }
}

/// A lane in place of another: it holds its whole length, or what the other held.
pub open spec fn keeps_up(a: Lane, b: Lane) -> bool {
    b.is_committed() ==> b.period == b.length || a.is_committed() && b.period == a.period && b.length == a.length
}

/// One lane changed, and no lane lost its jobs.
proof fn lemma_whole_but_one(a: World, b: World, i: int)
    requires
        deck::whole_ok(a.deck, a.jobs),
        forall|k: int| 0 <= k < TRACK_COUNT && k != i ==> #[trigger] b.deck.lanes@[k] == a.deck.lanes@[k],
        keeps_up(a.deck.lanes@[i], b.deck.lanes@[i]) || deck::busy(b.jobs, i),
        forall|k: int| deck::busy(a.jobs, k) && k != i ==> #[trigger] deck::busy(b.jobs, k),
        deck::busy(a.jobs, i) ==> deck::busy(b.jobs, i) || b.deck.lanes@[i].period == b.deck.lanes@[i].length,
    ensures
        deck::whole_ok(b.deck, b.jobs),
{
    reveal(deck::whole_ok);
    assert forall|k: int| 0 <= k < TRACK_COUNT && (#[trigger] b.deck.lanes@[k]).is_committed() implies b.deck.lanes@[k].period
        == b.deck.lanes@[k].length || deck::busy(b.jobs, k) by {
        if k != i {
            assert(b.deck.lanes@[k] == a.deck.lanes@[k]);
        }
        assert(a.deck.lanes@[k].is_committed() ==> a.deck.lanes@[k].period == a.deck.lanes@[k].length || deck::busy(
            a.jobs,
            k,
        ));
    }
}

/// A lane in work stays so with one more job.
proof fn lemma_busy_more(jobs: Seq<Option<Job>>, job: Job)
    ensures
        forall|k: int| deck::busy(jobs, k) ==> #[trigger] deck::busy(deck::with_job(jobs, job), k),
        deck::busy(deck::with_job(jobs, job), job.lane as int),
{
    lemma_first_free(jobs);
    let more = deck::with_job(jobs, job);
    let n = deck::first_free(jobs);
    assert(more[n] == Some(job));
    assert forall|k: int| deck::busy(jobs, k) implies #[trigger] deck::busy(more, k) by {
        let j = choose|j: int| 0 <= j < jobs.len() && (#[trigger] jobs[j]) is Some && jobs[j]->0.lane == k;
        assert(more[j] == jobs[j]);
    }
}

/// The other lanes stay in work without a lane's jobs.
proof fn lemma_busy_without(jobs: Seq<Option<Job>>, i: int)
    ensures
        forall|k: int| deck::busy(jobs, k) && k != i ==> #[trigger] deck::busy(deck::without_lane(jobs, i), k),
{
    let fewer = deck::without_lane(jobs, i);
    assert forall|k: int| deck::busy(jobs, k) && k != i implies #[trigger] deck::busy(fewer, k) by {
        let j = choose|j: int| 0 <= j < jobs.len() && (#[trigger] jobs[j]) is Some && jobs[j]->0.lane == k;
        assert(fewer[j] == jobs[j]);
    }
}

// ── Transitions ────────────────────────────────────────────────────────────────────────────────────

impl World {
    /// The parts of the invariant that stand on their own.
    pub open spec fn parts_ok(self, now: Frame) -> bool {
        &&& grid::near(now as int)
        &&& self.deck.settings_ok()
        &&& self.clock.wf()
        &&& self.clock.sample_rate == self.deck.sample_rate
    }

    /// One lane and the recorder changed; the pool is that of before.
    proof fn lemma_one_lane(self, after: World, now: Frame, i: int)
        requires
            self.inv(now),
            after.parts_ok(now),
            0 <= i < TRACK_COUNT,
            after.deck.master == self.deck.master,
            after.deck.capacity == self.deck.capacity,
            after.deck.anchor == self.deck.anchor,
            after.deck.pool_ok(),
            forall|k: int| 0 <= k < TRACK_COUNT && k != i ==> #[trigger] after.deck.lanes@[k] == self.deck.lanes@[k],
            after.lane(i).ok(after.deck.master, after.deck.capacity),
            after.deck.rec_ok(now),
            tasks::hand_ok(after.deck),
            tasks::same_dub(self.deck.rec, after.deck.rec, self.jobs),
            tasks::fits_in(self.lane(i), after.lane(i)) || tasks::suits(
                self.jobs,
                self.lane(i),
                after.lane(i),
                i,
                now,
            ),
            after.jobs == self.jobs,
            after.deck.rec is Some ==> no_restore(self.jobs),
            self.lane(i).audible.buf == self.lane(i).live ==> after.lane(i).audible.buf == after.lane(i).live,
            keeps_up(self.lane(i), after.lane(i)) || deck::busy(self.jobs, i),
        ensures
            after.inv(now),
    {
        lemma_lanes_but_one(self.deck, after.deck, i);
        lemma_jobs_same(self.deck, after.deck, self.jobs);
        lemma_whole_but_one(self, after, i);
        if tasks::fits_in(self.lane(i), after.lane(i)) {
            tasks::lemma_suits(self.deck, self.jobs, after.lane(i), i, now);
        }
        tasks::lemma_tasks_lane(self.deck, after.deck, self.jobs, now, i);
    }

    /// A master reset only where every lane is EMPTY.
    pub proof fn lemma_reset_if_blank(self, now: Frame)
        requires
            self.inv(now),
            self.reset_if_blank(now).parts_ok(now),
        ensures
            self.reset_if_blank(now).inv(now),
    {
        if self.blank() {
            let after = self.reset_if_blank(now);
            reveal(Deck::is_blank);
            reveal(Deck::lanes_ok);
            reveal(Deck::rec_ok);
            assert forall|k: int| 0 <= k < TRACK_COUNT implies (#[trigger] after.deck.lanes@[k]).ok(
                after.deck.master,
                after.deck.capacity,
            ) by {
                assert(self.deck.lanes@[k].ok(self.deck.master, self.deck.capacity));
            }
            lemma_pool_same(self.deck, after.deck);
            lemma_jobs_same(self.deck, after.deck, self.jobs);
            lemma_whole_but_one(self, after, 0);
            tasks::lemma_none_when_blank(self.deck, self.jobs, now);
            tasks::lemma_tasks_none(after.deck, self.jobs, now);
        }
    }

    /// A layer of the recorder's overdub discarded: the pool stays apart, and what is restored is wf.
    proof fn lemma_layer(self, now: Frame, i: int)
        requires
            self.inv(now),
            0 <= i < TRACK_COUNT,
            self.lane(i).state == LaneState::Overdubbing,
        ensures
            self.deck.rec is Some,
            ({
                let rec = self.deck.rec->0;
                let after = self.layer_discarded(now, i, rec);
                let quiet = World { deck: Deck { rec: None, ..after.deck }, ..after };
                &&& rec.lane == i
                &&& rec.kind == Kind::Overdub
                &&& after.deck.rec == self.deck.rec
                &&& after.deck.master == self.deck.master
                &&& after.deck.capacity == self.deck.capacity
                &&& after.deck.pool_ok()
                &&& after.lane(i).ok(self.deck.master, self.deck.capacity)
                &&& after.lane(i).state == LaneState::Overdubbing
                &&& deck::jobs_ok(quiet.deck, after.jobs)
                &&& forall|k: int| deck::busy(self.jobs, k) && k != i ==> #[trigger] deck::busy(after.jobs, k)
                &&& forall|k: int|
                    0 <= k < TRACK_COUNT && k != i ==> #[trigger] after.deck.lanes@[k] == self.deck.lanes@[k]
            }),
    {
        reveal(World::layer_discarded);
        self.lemma_lane(now, i);
        self.lemma_rec(now);
        let rec = self.deck.rec->0;
        let after = self.layer_discarded(now, i, rec);
        let quiet = World { deck: Deck { rec: None, ..after.deck }, ..after };
        let fewer = deck::without_lane(self.jobs, i);
        lemma_no_restore(self.deck, self.jobs);
        lemma_jobs_fewer(self.deck, self.jobs, fewer);
        lemma_jobs_same(self.deck, quiet.deck, fewer);
        lemma_busy_without(self.jobs, i);
        let span = grid::min_int(rec.summed as int, self.deck.master as int);
        if span == 0 {
            lemma_pool_swapped(self.deck, after.deck, i + 5, 10);
        } else {
            lemma_pool_same(self.deck, after.deck);
            let master = self.deck.master as int;
            let reader = grid::pos_in_loop(now as int, self.deck.anchor as int, master);
            let into = (reader - rec.first_pos) % master;
            vstd::arithmetic::div_mod::lemma_mod_bound(reader - rec.first_pos, master);
            let job = Job {
                kind: JobKind::Restore {
                    src: self.lane(i).spare,
                    dst: self.lane(i).live,
                    prev_undo_valid: rec.prev_undo_valid,
                    prev_spare_reversed: rec.prev_spare_reversed,
                },
                lane: i as usize,
                visit: deck::Visit {
                    lo: rec.first_pos,
                    span: span as Frame,
                    off: (if into < span {
                        into
                    } else {
                        0
                    }) as Frame,
                    modulus: self.deck.master,
                },
                start: now,
                progress: 0,
            };
            lemma_jobs_more(quiet.deck, fewer, job);
            assert(after.jobs == deck::with_job(fewer, job));
            lemma_busy_more(fewer, job);
            assert forall|k: int| deck::busy(self.jobs, k) && k != i implies #[trigger] deck::busy(after.jobs, k) by {
                assert(deck::busy(fewer, k));
            }
        }
    }

    proof fn lemma_stopped_overdub(self, now: Frame, i: int)
        requires
            self.inv(now),
            0 <= i < TRACK_COUNT,
            self.lane(i).state == LaneState::Overdubbing,
            self.stopped(now, i).parts_ok(now),
        ensures
            self.stopped(now, i).inv(now),
            self.stopped(now, i).deck.rec is None,
    {
        reveal(World::stopped);
        self.lemma_lane(now, i);
        self.lemma_rec(now);
        let w1 = self.with_lane(i, Lane { stop_at: None, ..self.lane(i) });
        let w = w1.with_lane(i, Lane { armed: false, ..w1.lane(i) });
        lemma_pool_same(self.deck, w.deck);
        lemma_rec_but_one(self.deck, w.deck, i, now);
        lemma_no_restore(self.deck, self.jobs);
        self.lemma_one_lane(w, now, i);
        w.lemma_layer(now, i);
        let mid = w.layer_discarded(now, i, w.deck.rec->0);
        let after = mid.released(i).settled(i, false);
        assert(self.stopped(now, i) == after);
        w.lemma_layer_settled(mid, after, now, i);
    }

    /// What a layer's end leaves, once the recorder is released and the lane settled.
    proof fn lemma_layer_settled(self, mid: World, after: World, now: Frame, i: int)
        requires
            self.inv(now),
            after.parts_ok(now),
            0 <= i < TRACK_COUNT,
            self.deck.rec is Some,
            self.deck.rec->0.lane == i,
            self.deck.rec->0.kind == Kind::Overdub,
            mid == self.layer_discarded(now, i, self.deck.rec->0),
            mid.deck.rec == self.deck.rec,
            mid.deck.master == self.deck.master,
            mid.deck.capacity == self.deck.capacity,
            mid.deck.pool_ok(),
            mid.lane(i).ok(self.deck.master, self.deck.capacity),
            mid.lane(i).state == LaneState::Overdubbing,
            deck::jobs_ok(Deck { rec: None, ..mid.deck }, mid.jobs),
            forall|k: int| 0 <= k < TRACK_COUNT && k != i ==> #[trigger] mid.deck.lanes@[k] == self.deck.lanes@[k],
            after.jobs == mid.jobs,
            after.deck.master == mid.deck.master,
            after.deck.capacity == mid.deck.capacity,
            after.deck.anchor == mid.deck.anchor,
            after.deck.free == mid.deck.free,
            after.deck.rec is None,
            forall|k: int| 0 <= k < TRACK_COUNT && k != i ==> #[trigger] after.deck.lanes@[k] == mid.deck.lanes@[k],
            after.lane(i).live == mid.lane(i).live,
            after.lane(i).spare == mid.lane(i).spare,
            after.lane(i).audible.buf == after.lane(i).live,
            !after.lane(i).audible.reversed,
            after.lane(i).switch_at is None,
            after.lane(i).is_committed(),
            after.lane(i).ok(self.deck.master, self.deck.capacity),
            after.lane(i).period == after.lane(i).length,
            forall|k: int| deck::busy(self.jobs, k) && k != i ==> #[trigger] deck::busy(mid.jobs, k),
        ensures
            after.inv(now),
    {
        let quiet = Deck { rec: None, ..mid.deck };
        self.lemma_layer_tasks(after, now, i);
        lemma_pool_same(mid.deck, after.deck);
        assert forall|k: int| 0 <= k < TRACK_COUNT && k != i implies #[trigger] after.deck.lanes@[k]
            == self.deck.lanes@[k] by {
            assert(mid.deck.lanes@[k] == self.deck.lanes@[k]);
        }
        lemma_lanes_but_one(self.deck, after.deck, i);
        lemma_rec_but_one(self.deck, after.deck, i, now);
        lemma_jobs_same(quiet, after.deck, mid.jobs);
        lemma_whole_but_one(self, after, i);
    }

    /// The jobs after a layer's end: the loop is put back ahead of the head, and none of the lane's else is left.
    proof fn lemma_layer_tasks(self, after: World, now: Frame, i: int)
        requires
            self.inv(now),
            0 <= i < TRACK_COUNT,
            self.deck.rec is Some,
            self.deck.rec->0.lane == i,
            self.deck.rec->0.kind == Kind::Overdub,
            ({
                let mid = self.layer_discarded(now, i, self.deck.rec->0);
                &&& after.jobs == mid.jobs
                &&& after.lane(i).live == mid.lane(i).live
                &&& after.lane(i).spare == mid.lane(i).spare
                &&& after.deck.master == mid.deck.master
                &&& after.deck.anchor == mid.deck.anchor
            }),
            after.deck.rec is None,
            forall|k: int| 0 <= k < TRACK_COUNT && k != i ==> #[trigger] after.deck.lanes@[k] == self.deck.lanes@[k],
            after.lane(i).audible.buf == after.lane(i).live,
            !after.lane(i).audible.reversed,
            after.lane(i).switch_at is None,
            after.lane(i).is_committed(),
            after.lane(i).period == self.deck.master,
        ensures
            tasks::tasks_ok(after.deck, after.jobs, now),
    {
        reveal(World::layer_discarded);
        self.lemma_lane(now, i);
        self.lemma_rec(now);
        let rec = self.deck.rec->0;
        let fewer = deck::without_lane(self.jobs, i);
        lemma_jobs_fewer(self.deck, self.jobs, fewer);
        tasks::lemma_tasks_fewer(self.deck, self.jobs, fewer, now);
        tasks::lemma_free_without(self.deck, self.jobs, now, i);
        tasks::lemma_suits_free(fewer, self.lane(i), after.lane(i), i, now);
        tasks::lemma_tasks_lane(self.deck, after.deck, fewer, now, i);
        let span = grid::min_int(rec.summed as int, self.deck.master as int);
        if span > 0 {
            let master = self.deck.master as int;
            let reader = grid::pos_in_loop(now as int, self.deck.anchor as int, master);
            let into = (reader - rec.first_pos) % master;
            vstd::arithmetic::div_mod::lemma_mod_bound(reader - rec.first_pos, master);
            let job = Job {
                kind: JobKind::Restore {
                    src: self.lane(i).spare,
                    dst: self.lane(i).live,
                    prev_undo_valid: rec.prev_undo_valid,
                    prev_spare_reversed: rec.prev_spare_reversed,
                },
                lane: i as usize,
                visit: deck::Visit {
                    lo: rec.first_pos,
                    span: span as Frame,
                    off: (if into < span {
                        into
                    } else {
                        0
                    }) as Frame,
                    modulus: self.deck.master,
                },
                start: now,
                progress: 0,
            };
            assert(after.jobs == deck::with_job(fewer, job));
            tasks::lemma_starts_ahead(after.deck, job, reader);
            tasks::lemma_joins(fewer, job);
            tasks::lemma_tasks_more(after.deck, fewer, job, now);
        }
    }

    /// A take aborted, up to the reset.
    proof fn lemma_aborted_take(self, now: Frame, i: int)
        requires
            self.inv(now),
            0 <= i < TRACK_COUNT,
            self.lane(i).state == LaneState::Recording,
        ensures
            ({
                let w3 = self.with_lane(i, Lane { stop_at: None, ..self.lane(i) }).aborted(now, i).settled(i, true);
                let calm = World { clock: self.clock, ..w3 };
                &&& calm.inv(now)
                &&& calm.deck.rec is None
            }),
    {
        self.lemma_lane(now, i);
        self.lemma_rec(now);
        let w1 = self.with_lane(i, Lane { stop_at: None, ..self.lane(i) });
        let w2 = w1.aborted(now, i);
        let w3 = w2.settled(i, true);
        let calm = World { clock: self.clock, ..w3 };
        assert(calm.deck.rec is None);
        lemma_pool_same(self.deck, calm.deck);
        lemma_rec_but_one(self.deck, calm.deck, i, now);
        self.lemma_one_lane(calm, now, i);
    }

    proof fn lemma_stopped_take(self, now: Frame, i: int)
        requires
            self.inv(now),
            0 <= i < TRACK_COUNT,
            self.lane(i).state == LaneState::Recording,
            self.stopped(now, i).parts_ok(now),
        ensures
            self.stopped(now, i).inv(now),
            self.stopped(now, i).deck.rec is None,
    {
        reveal(World::stopped);
        self.lemma_aborted_take(now, i);
        let w3 = self.with_lane(i, Lane { stop_at: None, ..self.lane(i) }).aborted(now, i).settled(i, true);
        let calm = World { clock: self.clock, ..w3 };
        let after = self.stopped(now, i);
        assert(after == w3.reset_if_blank(now));
        assert(calm.blank() == w3.blank());
        if calm.blank() {
            calm.lemma_reset_if_blank_of(after, now);
        }
    }

    proof fn lemma_stopped_loop(self, now: Frame, i: int)
        requires
            self.inv(now),
            0 <= i < TRACK_COUNT,
            self.lane(i).is_committed(),
            self.stopped(now, i).parts_ok(now),
        ensures
            self.stopped(now, i).inv(now),
            self.stopped(now, i).deck.rec == self.deck.rec,
    {
        reveal(World::stopped);
        self.lemma_lane(now, i);
        let after = self.stopped(now, i);
        lemma_pool_same(self.deck, after.deck);
        lemma_rec_elsewhere(self.deck, after.deck, i, now);
        if after.deck.rec is Some {
            lemma_no_restore(self.deck, self.jobs);
        }
        self.lemma_one_lane(after, now, i);
    }

    pub proof fn lemma_stopped(self, now: Frame, i: int)
        requires
            self.inv(now),
            0 <= i < TRACK_COUNT,
            self.stopped(now, i).parts_ok(now),
        ensures
            self.stopped(now, i).inv(now),
    {
        reveal(World::stopped);
        match self.lane(i).state {
            LaneState::Empty => {},
            LaneState::Overdubbing => self.lemma_stopped_overdub(now, i),
            LaneState::Recording => self.lemma_stopped_take(now, i),
            _ => self.lemma_stopped_loop(now, i),
        }
    }

    /// The deck of a reset, whatever the clock.
    proof fn lemma_reset_if_blank_of(self, after: World, now: Frame)
        requires
            self.inv(now),
            self.blank(),
            after.parts_ok(now),
            after.deck == (Deck { master: 0, anchor: 0, ..self.deck }),
            after.jobs == self.jobs,
        ensures
            after.inv(now),
    {
        reveal(Deck::is_blank);
        reveal(Deck::lanes_ok);
        reveal(Deck::rec_ok);
        assert forall|k: int| 0 <= k < TRACK_COUNT implies (#[trigger] after.deck.lanes@[k]).ok(
            after.deck.master,
            after.deck.capacity,
        ) by {
            assert(self.deck.lanes@[k].ok(self.deck.master, self.deck.capacity));
        }
        lemma_pool_same(self.deck, after.deck);
        lemma_jobs_same(self.deck, after.deck, self.jobs);
        lemma_whole_but_one(self, after, 0);
        tasks::lemma_none_when_blank(self.deck, self.jobs, now);
        tasks::lemma_tasks_none(after.deck, self.jobs, now);
    }

    /// A setting, the selected lane or the CLEAR arm changed, nothing else.
    pub proof fn lemma_settings(self, after: World, now: Frame)
        requires
            self.inv(now),
            after.parts_ok(now),
            after.deck.lanes == self.deck.lanes,
            after.deck.free == self.deck.free,
            after.deck.rec == self.deck.rec,
            after.deck.master == self.deck.master,
            after.deck.anchor == self.deck.anchor,
            after.deck.capacity == self.deck.capacity,
            after.jobs == self.jobs,
        ensures
            after.inv(now),
    {
        reveal(Deck::lanes_ok);
        reveal(Deck::rec_ok);
        lemma_pool_same(self.deck, after.deck);
        if self.deck.rec is Some {
            lemma_no_restore(self.deck, self.jobs);
        }
        lemma_jobs_same(self.deck, after.deck, self.jobs);
        lemma_whole_but_one(self, after, 0);
        tasks::lemma_suits(self.deck, self.jobs, after.lane(0), 0, now);
        tasks::lemma_tasks_lane(self.deck, after.deck, self.jobs, now, 0);
    }

    /// A lane's volume or mute changed, nothing else.
    pub proof fn lemma_strip(self, after: World, now: Frame, i: int)
        requires
            self.inv(now),
            0 <= i < TRACK_COUNT,
            after == self.with_lane(
                i,
                Lane { volume: after.lane(i).volume, muted: after.lane(i).muted, ..self.lane(i) },
            ),
            after.lane(i).volume.finite(),
            0 <= after.lane(i).volume.rank() <= SINGLE_ONE_AND_A_HALF,
        ensures
            after.inv(now),
    {
        self.lemma_lane(now, i);
        lemma_pool_same(self.deck, after.deck);
        if self.deck.rec is Some {
            self.lemma_rec(now);
            lemma_no_restore(self.deck, self.jobs);
        }
        if self.lane(i).is_capturing() {
            lemma_rec_but_one(self.deck, after.deck, i, now);
        } else {
            lemma_rec_elsewhere(self.deck, after.deck, i, now);
        }
        self.lemma_one_lane(after, now, i);
    }

    /// A blank session stays blank without a master.
    pub proof fn lemma_all_cleared(self, after: World, now: Frame)
        requires
            self.inv(now),
            forall|k: int| 0 <= k < TRACK_COUNT ==> (#[trigger] self.deck.lanes@[k]).state == LaneState::Empty,
            after.parts_ok(now),
            after.deck == (Deck { master: 0, anchor: 0, ..self.deck }),
            after.jobs == self.jobs,
        ensures
            after.inv(now),
    {
        reveal(Deck::is_blank);
        if self.deck.rec is Some {
            self.lemma_rec(now);
            self.lemma_lane(now, self.deck.rec->0.lane as int);
        }
        self.lemma_reset_if_blank_of(after, now);
    }

    pub proof fn lemma_restarted(self, now: Frame)
        requires
            self.inv(now),
            self.restarted_if_idle(now).parts_ok(now),
        ensures
            self.restarted_if_idle(now).inv(now),
            self.restarted_if_idle(now).deck.lanes == self.deck.lanes,
            self.restarted_if_idle(now).deck.rec == self.deck.rec,
            self.restarted_if_idle(now).jobs == self.jobs,
    {
        reveal(World::restarted_if_idle);
        let after = self.restarted_if_idle(now);
        if self.idle_transport() {
            reveal(Deck::lanes_ok);
            reveal(Deck::rec_ok);
            assert(after.deck.lanes == self.deck.lanes);
            lemma_pool_same(self.deck, after.deck);
            lemma_jobs_same(self.deck, after.deck, self.jobs);
            lemma_whole_but_one(self, after, 0);
            reveal(Deck::has_playing);
            tasks::lemma_tasks_idle(self.deck, after.deck, self.jobs, now);
        }
    }

    pub proof fn lemma_resumed(self, now: Frame, i: int, decide: bool)
        requires
            self.inv(now),
            0 <= i < TRACK_COUNT,
            !self.lane(i).is_capturing(),
            tasks::rests(self.jobs, i, now),
            self.resumed(now, i, decide).parts_ok(now),
        ensures
            self.resumed(now, i, decide).inv(now),
            self.resumed(now, i, decide).deck.rec == self.deck.rec,
            self.resumed(now, i, decide).jobs == self.jobs,
    {
        reveal(World::resumed);
        if self.lane(i).length != 0 {
            let w = if decide {
                self.restarted_if_idle(now)
            } else {
                self
            };
            let after = self.resumed(now, i, decide);
            assert(w.parts_ok(now));
            if decide {
                self.lemma_restarted(now);
            }
            w.lemma_lane(now, i);
            lemma_pool_same(w.deck, after.deck);
            lemma_rec_elsewhere(w.deck, after.deck, i, now);
            if after.deck.rec is Some {
                lemma_no_restore(w.deck, w.jobs);
            }
            tasks::lemma_suits_rested(w.deck, w.jobs, after.lane(i), i, now);
            w.lemma_one_lane(after, now, i);
        }
    }

    /// A take started on an EMPTY lane, with no layer being restored.
    pub proof fn lemma_recording(self, now: Frame, align: Frame, i: int, seam: Option<Frame>)
        requires
            self.inv(now),
            0 <= i < TRACK_COUNT,
            0 <= align <= LOOP_LIMIT,
            self.deck.rec is None ==> no_restore(self.jobs) && self.lane(i).state == LaneState::Empty,
            seam matches Some(f) ==> self.deck.master > 0 && -2 * HORIZON + 4 * LOOP_LIMIT <= f <= HORIZON + 3 * LOOP_LIMIT,
            self.recording(now, align, i, seam).parts_ok(now),
        ensures
            self.recording(now, align, i, seam).inv(now),
    {
        reveal(deck::take_bound);
        reveal(World::recording);
        if self.deck.rec is None {
            self.lemma_lane(now, i);
            let after = self.recording(now, align, i, seam);
            self.lemma_take_frames();
            if self.deck.master > 0 {
                grid::law_next_boundary_is_the_first_loop_start(
                    self.deck.anchor as int,
                    self.deck.master as int,
                    now as int,
                );
            } else {
                let grid = grid::Grid::tempo_grid(now, 0, self.clock.bpm, self.deck.sample_rate);
                grid::lemma_count_in(grid, self.clock.bpm, self.clock.sample_rate);
            }
            lemma_pool_same(self.deck, after.deck);
            lemma_rec_but_one(self.deck, after.deck, i, now);
            self.lemma_one_lane(after, now, i);
        }
    }

    /// A take runs at most the buffer.
    pub proof fn lemma_take_frames(self)
        requires
            self.deck.settings_ok(),
            self.clock.wf(),
            self.clock.sample_rate == self.deck.sample_rate,
        ensures
            1 <= self.take_frames() <= self.deck.capacity,
    {
        reveal(deck::take_bound);
        let fpb = self.fpb();
        grid::lemma_bar_bounds(self.clock.bpm as int, self.deck.sample_rate as int);
        let most = if self.deck.master > 0 {
            self.deck.master
        } else {
            self.deck.capacity
        };
        let bars = grid::clamped_bars(self.deck.fixed_bars as int, grid::whole_bars(most as int, fpb));
        grid::lemma_whole_bars_fit(bars, most as int, fpb, self.deck.capacity as int);
        if self.deck.master > 0 && self.deck.master as int % fpb == 0 {
            lemma_later_bars_fit(
                self.deck.fixed_bars as int,
                fpb,
                self.deck.master as int,
                self.deck.capacity,
            );
        }
    }

    pub proof fn lemma_overdubbing(self, now: Frame, align: Frame, i: int)
        requires
            self.inv(now),
            0 <= i < TRACK_COUNT,
            0 <= align <= LOOP_LIMIT,
            self.lane(i).state == LaneState::Playing,
            no_restore(self.jobs),
            tasks::free_of(self.jobs, i),
            self.overdubbing(now, align, i).parts_ok(now),
        ensures
            self.overdubbing(now, align, i).inv(now),
    {
        reveal(World::overdubbing);
        let after = self.overdubbing(now, align, i);
        let t = self.lane(i);
        if !(self.deck.rec is Some || t.reversed || self.deck.master == 0) {
            self.lemma_lane(now, i);
            vstd::arithmetic::div_mod::lemma_mod_bound(now - self.deck.anchor, self.deck.master as int);
            tasks::lemma_not_busy(self.jobs, i);
            assert(t.period == t.length) by {
                reveal(deck::whole_ok);
                assert(self.deck.lanes@[i].is_committed());
            }
            lemma_pool_swapped(self.deck, after.deck, i + 5, 10);
            lemma_rec_but_one(self.deck, after.deck, i, now);
            lemma_lanes_but_one(self.deck, after.deck, i);
            lemma_jobs_same(self.deck, after.deck, self.jobs);
            let first_pos = grid::pos_in_loop(now as int, self.deck.anchor as int, self.deck.master as int) as Frame;
            let job = Job {
                kind: JobKind::Copy { src: t.live, dst: self.deck.free },
                lane: i as usize,
                visit: deck::Visit {
                    lo: 0,
                    span: self.deck.master,
                    off: first_pos,
                    modulus: self.deck.master,
                },
                start: now,
                progress: 0,
            };
            lemma_jobs_more(after.deck, self.jobs, job);
            tasks::lemma_suits_free(self.jobs, t, after.lane(i), i, now);
            tasks::lemma_tasks_lane(self.deck, after.deck, self.jobs, now, i);
            tasks::lemma_joins(self.jobs, job);
            tasks::lemma_tasks_more(after.deck, self.jobs, job, now);
            lemma_busy_more(self.jobs, after.jobs[deck::first_free(self.jobs)]->0);
            lemma_first_free(self.jobs);
            lemma_whole_but_one(self, after, i);
        }
    }

    /// The master a first take makes fits the buffer.
    pub proof fn lemma_master_made(self, now: Frame, downbeat: Option<Frame>, raw: Frame)
        requires
            self.parts_ok(now),
            0 <= raw,
        ensures
            ({
                let after = self.master_made(now, downbeat, raw);
                &&& after.deck == (Deck {
                    master: after.deck.master,
                    anchor: after.deck.anchor,
                    ..self.deck
                })
                &&& 4 <= after.deck.master <= self.deck.capacity
                &&& after.jobs == self.jobs
            }),
    {
        reveal(World::master_made);
        let fpb = self.fpb();
        grid::lemma_bar_bounds(self.clock.bpm as int, self.deck.sample_rate as int);
        let bars = grid::commit_bars(raw as int, fpb, self.deck.capacity as int);
        vstd::arithmetic::div_mod::lemma_div_pos_is_pos(self.deck.capacity as int, fpb);
        grid::lemma_whole_bars_fit(bars, self.deck.capacity as int, fpb, self.deck.capacity as int);
    }

    /// A take laid on the recorder's lane: the lane is committed, and no layer was being restored.
    proof fn lemma_take_laid(self, now: Frame, i: int, stop_playback: bool, fill: grid::TakeFill)
        requires
            self.deck.settings_ok(),
            grid::near(now as int),
            self.deck.master > 0,
            0 <= i < TRACK_COUNT,
            fill.wf(),
            fill.master == self.deck.master,
            self.lane(i).live < BUFFER_COUNT,
            deck::jobs_ok(self.deck, self.jobs),
            no_restore(self.jobs),
        ensures
            ({
                let after = self.take_laid(now, i, stop_playback, fill);
                &&& deck::jobs_ok(Deck { rec: None, ..after.deck }, after.jobs)
                &&& no_restore(after.jobs)
                &&& after.deck == (Deck { lanes: after.deck.lanes, ..self.deck })
                &&& after.deck.lanes@ == self.deck.lanes@.update(i, after.lane(i))
                &&& after.lane(i).live == self.lane(i).live
                &&& after.lane(i).spare == self.lane(i).spare
                &&& after.lane(i).is_committed()
                &&& after.lane(i).audible == after.lane(i).own()
                &&& after.clock == self.clock
                &&& after.lane(i).period == after.lane(i).length
                &&& forall|k: int| deck::busy(self.jobs, k) ==> #[trigger] deck::busy(after.jobs, k)
                &&& forall|m: Frame| #[trigger]
                    self.lane(i).ok(m, self.deck.capacity) ==> (Lane { auto_armed: false, ..after.lane(i) }).ok(
                        self.deck.master,
                        self.deck.capacity,
                    )
            }),
    {
        reveal(World::take_laid);
        let after = self.take_laid(now, i, stop_playback, fill);
        let quiet = Deck { rec: None, ..after.deck };
        lemma_jobs_quiet(self.deck, quiet, self.jobs);
        let lo = fill.kept();
        let master = self.deck.master;
        if lo < master {
            let reader = grid::pos_in_loop(now as int, self.deck.anchor as int, master as int);
            vstd::arithmetic::div_mod::lemma_mod_bound(now - self.deck.anchor, master as int);
            lemma_jobs_more(
                quiet,
                self.jobs,
                Job {
                    kind: JobKind::Fill { buf: self.lane(i).live, fill },
                    lane: i as usize,
                    visit: deck::Visit {
                        lo: lo as Frame,
                        span: (master - lo) as Frame,
                        off: (if reader >= lo {
                            reader - lo
                        } else {
                            0
                        }) as Frame,
                        modulus: master,
                    },
                    start: now,
                    progress: 0,
                },
            );
            lemma_first_free(self.jobs);
            lemma_busy_more(self.jobs, after.jobs[deck::first_free(self.jobs)]->0);
        }
    }

    /// The jobs after a take is laid: its rest is filled ahead of the head.
    proof fn lemma_take_laid_tasks(self, now: Frame, i: int, stop_playback: bool, fill: grid::TakeFill)
        requires
            self.deck.settings_ok(),
            grid::near(now as int),
            self.deck.master > 0,
            0 <= i < TRACK_COUNT,
            fill.wf(),
            fill.master == self.deck.master,
            !self.lane(i).reversed,
            self.lane(i).switch_at is None,
            self.lane(i).live != self.lane(i).spare,
            self.deck.pool_ok(),
            deck::jobs_ok(self.deck, self.jobs),
            tasks::tasks_ok(self.deck, self.jobs, now),
            tasks::free_of(self.jobs, i),
            self.deck.rec matches Some(r) ==> r.kind == Kind::Take,
        ensures
            ({
                let after = self.take_laid(now, i, stop_playback, fill);
                tasks::tasks_ok(after.deck, after.jobs, now)
            }),
    {
        reveal(World::take_laid);
        let after = self.take_laid(now, i, stop_playback, fill);
        tasks::lemma_suits_free(self.jobs, self.lane(i), after.lane(i), i, now);
        tasks::lemma_tasks_lane(self.deck, after.deck, self.jobs, now, i);
        let lo = fill.kept();
        let master = self.deck.master;
        if lo < master {
            let reader = grid::pos_in_loop(now as int, self.deck.anchor as int, master as int);
            vstd::arithmetic::div_mod::lemma_mod_bound(now - self.deck.anchor, master as int);
            let job = Job {
                kind: JobKind::Fill { buf: self.lane(i).live, fill },
                lane: i as usize,
                visit: deck::Visit {
                    lo: lo as Frame,
                    span: (master - lo) as Frame,
                    off: (if reader >= lo {
                        reader - lo
                    } else {
                        0
                    }) as Frame,
                    modulus: master,
                },
                start: now,
                progress: 0,
            };
            assert(after.jobs == deck::with_job(self.jobs, job));
            if reader >= lo {
                vstd::arithmetic::div_mod::lemma_small_mod((reader - lo) as nat, master as nat);
            } else {
                vstd::arithmetic::div_mod::lemma_mod_add_multiples_vanish(reader - lo, master as int);
                vstd::arithmetic::div_mod::lemma_small_mod((reader - lo + master) as nat, master as nat);
            }
            tasks::lemma_starts_ahead(after.deck, job, reader);
            tasks::lemma_joins(self.jobs, job);
            tasks::lemma_tasks_more(after.deck, self.jobs, job, now);
        }
    }

    /// The jobs after the lanes are lengthened: what a lane holds is repeated past it.
    proof fn lemma_lengthened_tasks(self, now: Frame, k: int, i: int)
        requires
            0 <= k <= TRACK_COUNT,
            grid::near(now as int),
            self.deck.settings_ok(),
            self.deck.master > 0,
            self.deck.pool_ok(),
            self.deck.rec matches Some(r) ==> r.kind == Kind::Take,
            deck::jobs_ok(self.deck, self.jobs),
            no_restore(self.jobs),
            tasks::tasks_ok(self.deck, self.jobs, now),
            forall|j: int|
                k <= j < TRACK_COUNT && j != i && (#[trigger] self.deck.lanes@[j]).is_committed() ==> 0
                    < self.deck.lanes@[j].period <= self.deck.master,
        ensures
            tasks::tasks_ok(self.lengthened(now, k, i).deck, self.lengthened(now, k, i).jobs, now),
        decreases TRACK_COUNT - k,
    {
        if k < TRACK_COUNT {
            let t = self.lane(k);
            if k != i && t.is_committed() {
                let u = self.with_lane(k, Lane { length: self.deck.master, ..t });
                lemma_jobs_quiet(self.deck, u.deck, self.jobs);
                lemma_pool_same(self.deck, u.deck);
                assert(u.lane(k) == (Lane { length: self.deck.master, ..t }));
                tasks::lemma_suits(self.deck, self.jobs, u.lane(k), k, now);
                tasks::lemma_tasks_lane(self.deck, u.deck, self.jobs, now, k);
                assert(t.live < BUFFER_COUNT && t.spare < BUFFER_COUNT && t.live != t.spare) by {
                    reveal(Deck::pool_ok);
                    assert(0 <= self.deck.owner(k) < BUFFER_COUNT && 0 <= self.deck.owner(k + 5) < BUFFER_COUNT);
                    assert(self.deck.owner(k) != self.deck.owner(k + 5));
                }
                u.lemma_caught_up_same(now, k);
                u.lemma_caught_up_jobs(now, k);
                u.lemma_caught_up_tasks(now, k);
                let w = u.caught_up(now, k);
                assert forall|j: int| 0 <= j < TRACK_COUNT && j != k implies #[trigger] w.deck.lanes@[j]
                    == self.deck.lanes@[j] by {
                }
                w.lemma_lengthened_tasks(now, k + 1, i);
            } else {
                self.lemma_lengthened_tasks(now, k + 1, i);
            }
        }
    }

    /// The recorder's capture closed and released.
    pub proof fn lemma_closed(self, now: Frame, i: int)
        requires
            self.inv(now),
            0 <= i < TRACK_COUNT,
            self.deck.rec is Some,
            self.deck.rec->0.lane == i,
            !self.lane(i).auto_armed,
            self.closed(now, i, self.deck.rec->0).released(i).parts_ok(now),
        ensures
            forall|k: int|
                0 <= k < TRACK_COUNT && k != i ==> (#[trigger] self.closed(now, i, self.deck.rec->0).released(i).deck.lanes@[k]).state
                    == self.deck.lanes@[k].state,
            self.closed(now, i, self.deck.rec->0).released(i).inv(now),
            self.closed(now, i, self.deck.rec->0).released(i).deck.rec is None,
            self.deck.rec->0.kind == Kind::Take ==> no_restore(
                self.closed(now, i, self.deck.rec->0).released(i).jobs,
            ),
            self.closed(now, i, self.deck.rec->0).released(i).lane(i).state == LaneState::Playing
                ==> self.closed(now, i, self.deck.rec->0).released(i).deck.master > 0,
    {
        let rec = self.deck.rec->0;
        if rec.kind == Kind::Overdub {
            self.lemma_closed_overdub(now, i);
        } else if rec.damaged {
            self.lemma_closed_rejected(now, i);
        } else {
            self.lemma_closed_take(now, i);
        }
    }

    proof fn lemma_closed_overdub(self, now: Frame, i: int)
        requires
            self.inv(now),
            0 <= i < TRACK_COUNT,
            self.deck.rec is Some,
            self.deck.rec->0.lane == i,
            self.deck.rec->0.kind == Kind::Overdub,
            self.closed(now, i, self.deck.rec->0).released(i).parts_ok(now),
        ensures
            forall|k: int|
                0 <= k < TRACK_COUNT && k != i ==> (#[trigger] self.closed(now, i, self.deck.rec->0).released(i).deck.lanes@[k]).state
                    == self.deck.lanes@[k].state,
            self.closed(now, i, self.deck.rec->0).released(i).inv(now),
            self.closed(now, i, self.deck.rec->0).released(i).deck.rec is None,
            self.closed(now, i, self.deck.rec->0).released(i).deck.master > 0,
    {
        let rec = self.deck.rec->0;
        let after = self.closed(now, i, rec).released(i);
        self.lemma_lane(now, i);
        self.lemma_rec(now);
        if rec.damaged {
            let w = self.say(
                crate::api::Event::TakeRejected { frame: now, lane: i as u8, overdub: true },
            );
            w.lemma_layer(now, i);
            let mid = w.layer_discarded(now, i, rec);
            w.lemma_layer_settled(mid, after, now, i);
        } else {
            lemma_no_restore(self.deck, self.jobs);
            lemma_pool_same(self.deck, after.deck);
            lemma_rec_but_one(self.deck, after.deck, i, now);
            self.lemma_one_lane(after, now, i);
        }
    }

    proof fn lemma_closed_rejected(self, now: Frame, i: int)
        requires
            self.inv(now),
            0 <= i < TRACK_COUNT,
            self.deck.rec is Some,
            self.deck.rec->0.lane == i,
            self.deck.rec->0.kind == Kind::Take,
            self.deck.rec->0.damaged,
            self.closed(now, i, self.deck.rec->0).released(i).parts_ok(now),
        ensures
            forall|k: int|
                0 <= k < TRACK_COUNT && k != i ==> (#[trigger] self.closed(now, i, self.deck.rec->0).released(i).deck.lanes@[k]).state
                    == self.deck.lanes@[k].state,
            self.closed(now, i, self.deck.rec->0).released(i).inv(now),
            self.closed(now, i, self.deck.rec->0).released(i).deck.rec is None,
            no_restore(self.closed(now, i, self.deck.rec->0).released(i).jobs),
            self.closed(now, i, self.deck.rec->0).released(i).lane(i).state == LaneState::Empty,
    {
        let after = self.closed(now, i, self.deck.rec->0).released(i);
        self.lemma_lane(now, i);
        self.lemma_rec(now);
        lemma_no_restore(self.deck, self.jobs);
        lemma_pool_same(self.deck, after.deck);
        lemma_rec_but_one(self.deck, after.deck, i, now);
        self.lemma_one_lane(after, now, i);
    }

    /// The lanes lengthened, and their jobs.
    proof fn lemma_lengthened(self, now: Frame, k: int, i: int)
        requires
            0 <= k <= TRACK_COUNT,
            grid::near(now as int),
            self.deck.settings_ok(),
            self.deck.master > 0,
            deck::jobs_ok(self.deck, self.jobs),
            no_restore(self.jobs),
            forall|j: int|
                k <= j < TRACK_COUNT ==> (#[trigger] self.deck.lanes@[j]).live < BUFFER_COUNT && self.deck.lanes@[j].spare
                    < BUFFER_COUNT,
            forall|j: int|
                k <= j < TRACK_COUNT && j != i && (#[trigger] self.deck.lanes@[j]).is_committed() ==> 0
                    < self.deck.lanes@[j].period <= self.deck.master,
        ensures
            ({
                let after = self.lengthened(now, k, i);
                &&& after.deck == (Deck { lanes: after.deck.lanes, ..self.deck })
                &&& after == (World { deck: after.deck, jobs: after.jobs, ..self })
                &&& forall|j: int|
                    0 <= j < TRACK_COUNT ==> #[trigger] after.deck.lanes@[j] == (if k <= j && j != i
                        && self.deck.lanes@[j].is_committed() {
                        Lane { length: self.deck.master, ..self.deck.lanes@[j] }
                    } else {
                        self.deck.lanes@[j]
                    })
                &&& deck::jobs_ok(after.deck, after.jobs)
                &&& no_restore(after.jobs)
                &&& forall|j: int| deck::busy(self.jobs, j) ==> #[trigger] deck::busy(after.jobs, j)
                &&& forall|j: int|
                    k <= j < TRACK_COUNT && j != i && (#[trigger] after.deck.lanes@[j]).is_committed()
                        ==> after.deck.lanes@[j].period == after.deck.lanes@[j].length || deck::busy(after.jobs, j)
            }),
        decreases TRACK_COUNT - k,
    {
        if k < TRACK_COUNT {
            let t = self.lane(k);
            if k != i && t.is_committed() {
                let u = self.with_lane(k, Lane { length: self.deck.master, ..t });
                lemma_jobs_quiet(self.deck, u.deck, self.jobs);
                assert(u.lane(k) == (Lane { length: self.deck.master, ..t }));
                u.lemma_caught_up_same(now, k);
                u.lemma_caught_up_jobs(now, k);
                let w = u.caught_up(now, k);
                assert forall|j: int| 0 <= j < TRACK_COUNT && j != k implies #[trigger] w.deck.lanes@[j]
                    == self.deck.lanes@[j] by {
                }
                w.lemma_lengthened(now, k + 1, i);
                let after = self.lengthened(now, k, i);
                assert(after == w.lengthened(now, k + 1, i));
                assert(after.deck.lanes@[k].period == after.deck.lanes@[k].length || deck::busy(after.jobs, k)) by {
                    assert(after.deck.lanes@[k] == u.lane(k));
                    if u.lane(k).period < u.lane(k).length {
                        assert(deck::busy(w.jobs, k));
                    }
                }
                assert forall|j: int| deck::busy(self.jobs, j) implies #[trigger] deck::busy(after.jobs, j) by {
                    assert(deck::busy(w.jobs, j));
                }
            } else {
                self.lemma_lengthened(now, k + 1, i);
            }
        }
    }

    /// The master a take past it makes fits the buffer, and the other loops repeat in it.
    pub proof fn lemma_multiplied(self, now: Frame, downbeat: int, raw: Frame)
        requires
            self.parts_ok(now),
            self.multiplies(raw),
            raw <= self.deck.capacity,
            -2 * HORIZON + 3 * LOOP_LIMIT <= downbeat <= 2 * HORIZON,
        ensures
            ({
                let after = self.multiplied(now, downbeat, self.loops_of(raw));
                &&& after.deck == (Deck { master: after.deck.master, anchor: after.deck.anchor, ..self.deck })
                &&& after == (World { deck: after.deck, clock: after.clock, ..self })
                &&& after.deck.master == self.loops_of(raw) * self.deck.master
                &&& self.deck.master < after.deck.master <= self.deck.capacity
                &&& after.deck.settings_ok()
                &&& after.deck.anchor == self.deck.anchor + (downbeat - self.deck.anchor) / (self.deck.master as int)
                    * self.deck.master
            }),
    {
        reveal(World::multiplied);
        let old = self.deck.master as int;
        let loops = self.loops_of(raw);
        let d = downbeat - self.deck.anchor;
        vstd::arithmetic::div_mod::lemma_fundamental_div_mod(raw as int, old);
        vstd::arithmetic::div_mod::lemma_fundamental_div_mod(d, old);
        assert(old < loops * old <= raw) by (nonlinear_arith)
            requires
                raw == old * loops + raw as int % old,
                0 <= raw as int % old,
                loops >= 2,
                old >= 1,
        ;
        assert(d - old < d / old * old <= d) by (nonlinear_arith)
            requires
                d == old * (d / old) + d % old,
                0 <= d % old < old,
        ;
    }

    /// What a take past the master leaves, before the recorder is released.
    pub proof fn lemma_multiply(self, now: Frame, i: int, raw: Frame)
        requires
            self.inv(now),
            0 <= i < TRACK_COUNT,
            self.deck.rec is Some,
            self.deck.rec->0.lane == i,
            self.deck.rec->0.kind == Kind::Take,
            !self.lane(i).auto_armed,
            raw == grid::min_int(
                self.lane(i).written as int,
                self.deck.rec->0.end->0 - self.deck.rec->0.start->0,
            ) as Frame,
            self.multiplies(raw),
        ensures
            ({
                let rec = self.deck.rec->0;
                let after = self.take_committed(now, i, rec);
                let d = rec.start->0 - rec.align - self.deck.anchor;
                &&& after.deck == (Deck {
                    lanes: after.deck.lanes,
                    master: after.deck.master,
                    anchor: after.deck.anchor,
                    ..self.deck
                })
                &&& after.deck.settings_ok()
                &&& after.deck.master == self.loops_of(raw) * self.deck.master
                &&& after.deck.anchor == self.deck.anchor + d / (self.deck.master as int) * self.deck.master
                &&& after.lane(i).live == self.lane(i).live
                &&& after.lane(i).spare == self.lane(i).spare
                &&& after.lane(i).is_committed()
                &&& after.lane(i).audible == after.lane(i).own()
                &&& after.lane(i).length == after.deck.master
                &&& after.lane(i).period == after.deck.master
                &&& (Lane { auto_armed: false, ..after.lane(i) }).ok(after.deck.master, self.deck.capacity)
                &&& forall|j: int|
                    0 <= j < TRACK_COUNT && j != i ==> #[trigger] after.deck.lanes@[j] == (if self.deck.lanes@[j].is_committed() {
                        Lane { length: after.deck.master, ..self.deck.lanes@[j] }
                    } else {
                        self.deck.lanes@[j]
                    })
                &&& deck::jobs_ok(after.deck, after.jobs)
                &&& no_restore(after.jobs)
                &&& tasks::tasks_ok(after.deck, after.jobs, now)
                &&& forall|j: int|
                    0 <= j < TRACK_COUNT && j != i && (#[trigger] after.deck.lanes@[j]).is_committed()
                        ==> after.deck.lanes@[j].period == after.deck.lanes@[j].length || deck::busy(after.jobs, j)
            }),
    {
        let rec = self.deck.rec->0;
        self.lemma_lane(now, i);
        self.lemma_rec(now);
        lemma_no_restore(self.deck, self.jobs);
        let fpb = self.fpb();
        grid::lemma_bar_bounds(self.clock.bpm as int, self.deck.sample_rate as int);
        let downbeat = rec.start->0 - rec.align;
        self.lemma_multiplied(now, downbeat, raw);
        let w = self.multiplied(now, downbeat, self.loops_of(raw));
        let (old, master) = (self.deck.master as int, w.deck.master as int);
        lemma_later_fill_wf(raw, fpb as Frame, w.deck.master);
        let fill = grid::TakeFill::later_fill(raw, fpb as Frame, w.deck.master);
        lemma_jobs_quiet(self.deck, w.deck, self.jobs);
        w.lemma_take_laid(now, i, rec.stop_playback, fill);
        tasks::lemma_tasks_multiplied(
            self.deck,
            w.deck,
            self.jobs,
            now,
            self.loops_of(raw),
            (downbeat - self.deck.anchor) / old,
        );
        tasks::lemma_free(self.deck, self.jobs, now, i);
        lemma_pool_same(self.deck, w.deck);
        w.lemma_take_laid_tasks(now, i, rec.stop_playback, fill);
        let laid = w.take_laid(now, i, rec.stop_playback, fill);
        lemma_pool_same(self.deck, laid.deck);
        assert(laid == (World { deck: laid.deck, jobs: laid.jobs, ..w })) by {
            reveal(World::take_laid);
        }
        assert(laid.lane(i).length == master && laid.lane(i).period == master) by {
            reveal(World::take_laid);
        }
        lemma_jobs_quiet(Deck { rec: None, ..laid.deck }, laid.deck, laid.jobs);
        assert forall|j: int| 0 <= j < TRACK_COUNT implies (#[trigger] laid.deck.lanes@[j]).live < BUFFER_COUNT
            && laid.deck.lanes@[j].spare < BUFFER_COUNT by {
            self.lemma_lane(now, j);
        }
        assert forall|j: int|
            0 <= j < TRACK_COUNT && j != i && (#[trigger] laid.deck.lanes@[j]).is_committed() implies 0
            < laid.deck.lanes@[j].period <= master by {
            self.lemma_lane(now, j);
        }
        laid.lemma_lengthened(now, 0, i);
        laid.lemma_lengthened_tasks(now, 0, i);
        let long = laid.lengthened(now, 0, i);
        assert(self.take_committed(now, i, rec) == long);
    }

    proof fn lemma_closed_multiply(self, now: Frame, i: int, raw: Frame)
        requires
            self.inv(now),
            0 <= i < TRACK_COUNT,
            self.deck.rec is Some,
            self.deck.rec->0.lane == i,
            self.deck.rec->0.kind == Kind::Take,
            !self.deck.rec->0.damaged,
            !self.lane(i).auto_armed,
            raw == grid::min_int(
                self.lane(i).written as int,
                self.deck.rec->0.end->0 - self.deck.rec->0.start->0,
            ) as Frame,
            self.multiplies(raw),
            self.closed(now, i, self.deck.rec->0).released(i).parts_ok(now),
        ensures
            forall|k: int|
                0 <= k < TRACK_COUNT && k != i ==> (#[trigger] self.closed(now, i, self.deck.rec->0).released(i).deck.lanes@[k]).state
                    == self.deck.lanes@[k].state,
            self.closed(now, i, self.deck.rec->0).released(i).inv(now),
            self.closed(now, i, self.deck.rec->0).released(i).deck.rec is None,
            no_restore(self.closed(now, i, self.deck.rec->0).released(i).jobs),
            self.closed(now, i, self.deck.rec->0).released(i).deck.master > 0,
    {
        let rec = self.deck.rec->0;
        self.lemma_lane(now, i);
        self.lemma_rec(now);
        self.lemma_multiply(now, i, raw);
        let long = self.take_committed(now, i, rec);
        assert(self.closed(now, i, rec) == long);
        vstd::arithmetic::div_mod::lemma_fundamental_div_mod(raw as int, self.deck.master as int);
        let after = long.released(i);
        assert(after.jobs == long.jobs);
        self.lemma_multiply_lanes(long, after, now, i, self.loops_of(raw));
        lemma_pool_same(self.deck, after.deck);
        self.lemma_multiply_rec(after, now, i);
        assert(deck::whole_ok(after.deck, after.jobs)) by {
            reveal(deck::whole_ok);
            assert forall|j: int| 0 <= j < TRACK_COUNT && (#[trigger] after.deck.lanes@[j]).is_committed() implies after.deck.lanes@[j].period
                == after.deck.lanes@[j].length || deck::busy(after.jobs, j) by {
                if j != i {
                    assert(after.deck.lanes@[j] == long.deck.lanes@[j]);
                }
            }
        }
        lemma_jobs_quiet(long.deck, after.deck, after.jobs);
        lemma_pool_same(self.deck, long.deck);
        tasks::lemma_suits(long.deck, long.jobs, after.lane(i), i, now);
        tasks::lemma_tasks_lane(long.deck, after.deck, long.jobs, now, i);
    }

    /// What a multiply leaves of the lanes.
    proof fn lemma_multiply_lanes(self, w: World, after: World, now: Frame, i: int, loops: int)
        requires
            self.inv(now),
            0 <= i < TRACK_COUNT,
            self.deck.rec is Some,
            self.deck.rec->0.lane == i,
            self.deck.master > 0,
            loops >= 1,
            w.deck.master == loops * self.deck.master,
            after.deck.master == w.deck.master,
            after.deck.capacity == self.deck.capacity,
            after.lane(i).state == LaneState::Playing || after.lane(i).state == LaneState::Stopped,
            after.lane(i).length == w.deck.master,
            after.lane(i).period == w.deck.master,
            after.lane(i).ok(w.deck.master, self.deck.capacity),
            forall|j: int|
                0 <= j < TRACK_COUNT && j != i ==> #[trigger] after.deck.lanes@[j] == (if self.deck.lanes@[j].is_committed() {
                    Lane { length: w.deck.master, ..self.deck.lanes@[j] }
                } else {
                    self.deck.lanes@[j]
                }),
        ensures
            after.deck.lanes_ok(),
    {
        reveal(Deck::lanes_ok);
        reveal(Deck::rec_ok);
        let old = self.deck.master as int;
        assert forall|j: int| 0 <= j < TRACK_COUNT implies (#[trigger] after.deck.lanes@[j]).ok(
            after.deck.master,
            after.deck.capacity,
        ) by {
            if j != i {
                let t = self.deck.lanes@[j];
                assert(t.ok(self.deck.master, self.deck.capacity));
                assert(t.is_capturing() <==> self.deck.rec is Some && self.deck.rec->0.lane == j);
                if t.is_committed() {
                    let p = t.period as int;
                    vstd::arithmetic::div_mod::lemma_fundamental_div_mod(old, p);
                    let q = old / p;
                    assert(loops * old == (loops * q) * p && loops * old >= old) by (nonlinear_arith)
                        requires
                            old == p * q + 0,
                            loops >= 1,
                            old >= 1,
                    ;
                    vstd::arithmetic::div_mod::lemma_mod_multiples_basic(loops * q, p);
                }
            }
        }
    }

    /// The recorder released after a multiply: no lane captures.
    proof fn lemma_multiply_rec(self, after: World, now: Frame, i: int)
        requires
            self.inv(now),
            0 <= i < TRACK_COUNT,
            self.deck.rec is Some,
            self.deck.rec->0.lane == i,
            after.deck.rec is None,
            !after.lane(i).is_capturing(),
            forall|j: int|
                0 <= j < TRACK_COUNT && j != i ==> (#[trigger] after.deck.lanes@[j]).state == self.deck.lanes@[j].state,
        ensures
            after.deck.rec_ok(now),
    {
        reveal(Deck::rec_ok);
        assert forall|j: int| 0 <= j < TRACK_COUNT implies !(#[trigger] after.deck.lanes@[j]).is_capturing() by {
            if j != i {
                assert(self.deck.lanes@[j].is_capturing() <==> self.deck.rec is Some && self.deck.rec->0.lane == j);
            }
        }
    }

    proof fn lemma_closed_take(self, now: Frame, i: int)
        requires
            self.inv(now),
            0 <= i < TRACK_COUNT,
            self.deck.rec is Some,
            self.deck.rec->0.lane == i,
            self.deck.rec->0.kind == Kind::Take,
            !self.deck.rec->0.damaged,
            !self.lane(i).auto_armed,
            self.closed(now, i, self.deck.rec->0).released(i).parts_ok(now),
        ensures
            forall|k: int|
                0 <= k < TRACK_COUNT && k != i ==> (#[trigger] self.closed(now, i, self.deck.rec->0).released(i).deck.lanes@[k]).state
                    == self.deck.lanes@[k].state,
            self.closed(now, i, self.deck.rec->0).released(i).inv(now),
            self.closed(now, i, self.deck.rec->0).released(i).deck.rec is None,
            no_restore(self.closed(now, i, self.deck.rec->0).released(i).jobs),
            self.closed(now, i, self.deck.rec->0).released(i).deck.master > 0,
    {
        let rec = self.deck.rec->0;
        self.lemma_lane(now, i);
        self.lemma_rec(now);
        lemma_no_restore(self.deck, self.jobs);
        let raw = grid::min_int(self.lane(i).written as int, rec.end->0 - rec.start->0) as Frame;
        let fpb = self.fpb();
        grid::lemma_bar_bounds(self.clock.bpm as int, self.deck.sample_rate as int);
        if self.multiplies(raw) {
            self.lemma_closed_multiply(now, i, raw);
            return;
        }
        let first = self.deck.master == 0;
        if first {
            self.lemma_master_made(now, rec.downbeat, raw);
        } else {
            lemma_later_fill_wf(raw, fpb as Frame, self.deck.master);
        }
        let w = if first {
            self.master_made(now, rec.downbeat, raw)
        } else {
            self
        };
        let fill = if first {
            grid::TakeFill::first_fill(raw, w.deck.master)
        } else {
            grid::TakeFill::later_fill(raw, fpb as Frame, w.deck.master)
        };
        let laid = w.take_laid(now, i, rec.stop_playback, fill);
        assert(self.closed(now, i, rec) == laid);
        let after = laid.released(i);
        assert(after.deck.master == w.deck.master && after.deck.anchor == w.deck.anchor) by {
            reveal(World::take_laid);
        }
        lemma_jobs_same(self.deck, w.deck, self.jobs);
        w.lemma_take_laid(now, i, rec.stop_playback, fill);
        tasks::lemma_free(self.deck, self.jobs, now, i);
        if first {
            self.lemma_no_jobs_before_the_master(now);
            tasks::lemma_tasks_none(w.deck, self.jobs, now);
        }
        lemma_pool_same(self.deck, w.deck);
        w.lemma_take_laid_tasks(now, i, rec.stop_playback, fill);
        self.lemma_laid_released(w, laid, after, now, i);
    }

    /// Nothing is in work before there is a master.
    proof fn lemma_no_jobs_before_the_master(self, now: Frame)
        requires
            self.inv(now),
            self.deck.master == 0,
        ensures
            forall|k: int| 0 <= k < self.jobs.len() ==> (#[trigger] self.jobs[k]) is None,
    {
        reveal(Deck::lanes_ok);
        assert forall|k: int| 0 <= k < TRACK_COUNT implies !(#[trigger] self.deck.lanes@[k]).is_committed()
            && self.deck.lanes@[k].state != LaneState::Overdubbing by {
            assert(self.deck.lanes@[k].ok(self.deck.master, self.deck.capacity));
        }
        tasks::lemma_none_when_blank(self.deck, self.jobs, now);
    }

    /// What a commit leaves, once the recorder is released.
    proof fn lemma_laid_released(self, w: World, laid: World, after: World, now: Frame, i: int)
        requires
            self.inv(now),
            0 <= i < TRACK_COUNT,
            self.deck.rec is Some,
            self.deck.rec->0.lane == i,
            w.deck == (Deck { master: w.deck.master, anchor: w.deck.anchor, ..self.deck }),
            self.deck.master == 0 || w.deck.master == self.deck.master,
            w.deck.master > 0,
            laid.deck == (Deck { lanes: laid.deck.lanes, ..w.deck }),
            laid.deck.lanes@ == w.deck.lanes@.update(i, laid.lane(i)),
            laid.lane(i).live == self.lane(i).live,
            laid.lane(i).spare == self.lane(i).spare,
            laid.lane(i).is_committed(),
            laid.lane(i).audible == laid.lane(i).own(),
            (Lane { auto_armed: false, ..laid.lane(i) }).ok(w.deck.master, w.deck.capacity),
            deck::jobs_ok(Deck { rec: None, ..laid.deck }, laid.jobs),
            no_restore(laid.jobs),
            tasks::tasks_ok(laid.deck, laid.jobs, now),
            laid.lane(i).period == laid.lane(i).length,
            forall|k: int| deck::busy(self.jobs, k) ==> #[trigger] deck::busy(laid.jobs, k),
            after == laid.released(i),
            after.parts_ok(now),
        ensures
            after.inv(now),
            after.deck.rec is None,
    {
        assert(after.lane(i) == (Lane { auto_armed: false, ..laid.lane(i) }));
        assert(after.jobs == laid.jobs);
        lemma_pool_same(self.deck, after.deck);
        lemma_rec_but_one(self.deck, after.deck, i, now);
        self.lemma_lanes_with_master(after, now, i);
        lemma_jobs_same(Deck { rec: None, ..laid.deck }, after.deck, after.jobs);
        lemma_whole_but_one(self, after, i);
        lemma_jobs_quiet(Deck { rec: None, ..laid.deck }, laid.deck, laid.jobs);
        lemma_pool_same(self.deck, laid.deck);
        tasks::lemma_suits(laid.deck, laid.jobs, after.lane(i), i, now);
        tasks::lemma_tasks_lane(laid.deck, after.deck, laid.jobs, now, i);
    }

    /// One lane committed; a first commit brings the master, when every other lane was EMPTY.
    proof fn lemma_lanes_with_master(self, after: World, now: Frame, i: int)
        requires
            self.inv(now),
            0 <= i < TRACK_COUNT,
            self.deck.rec is Some,
            self.deck.rec->0.lane == i,
            after.deck.capacity == self.deck.capacity,
            self.deck.master == 0 || after.deck.master == self.deck.master,
            forall|k: int| 0 <= k < TRACK_COUNT && k != i ==> #[trigger] after.deck.lanes@[k] == self.deck.lanes@[k],
            after.lane(i).ok(after.deck.master, after.deck.capacity),
        ensures
            after.deck.lanes_ok(),
    {
        reveal(Deck::lanes_ok);
        reveal(Deck::rec_ok);
        assert forall|k: int| 0 <= k < TRACK_COUNT implies (#[trigger] after.deck.lanes@[k]).ok(
            after.deck.master,
            after.deck.capacity,
        ) by {
            assert(self.deck.lanes@[k].ok(self.deck.master, self.deck.capacity));
            assert(self.deck.lanes@[k].is_capturing() <==> self.deck.rec is Some && self.deck.rec->0.lane == k);
        }
    }
}

proof fn lemma_jobs_quiet(a: Deck, quiet: Deck, jobs: Seq<Option<Job>>)
    requires
        deck::jobs_ok(a, jobs),
        no_restore(jobs),
        quiet.capacity == a.capacity,
    ensures
        deck::jobs_ok(quiet, jobs),
{
    reveal(deck::jobs_ok);
    reveal(no_restore);
}

pub proof fn lemma_later_fill_wf(raw: Frame, fpb: Frame, master: Frame)
    requires
        0 <= raw,
        fpb > 0,
        master > 0,
    ensures
        grid::TakeFill::later_fill(raw, fpb, master).wf(),
        grid::TakeFill::later_fill(raw, fpb, master).master == master,
{
    if master as int % fpb as int == 0 {
        let bars = grid::clamped_bars(raw as int / fpb as int, grid::whole_bars(master as int, fpb as int));
        vstd::arithmetic::div_mod::lemma_fundamental_div_mod(master as int, fpb as int);
        assert(fpb <= master) by (nonlinear_arith)
            requires
                master == fpb * (master as int / fpb as int),
                master > 0,
                fpb > 0,
        ;
        grid::lemma_whole_bars_fit(bars, master as int, fpb as int, master as int);
    }
}

impl World {
    /// Only the recorder's own state changed.
    pub proof fn lemma_rec_changed(self, rec: Recorder, now: Frame)
        requires
            self.inv(now),
            self.deck.rec is Some,
            rec.lane == self.deck.rec->0.lane,
            rec.ok(self.lane(rec.lane as int), self.deck.master, self.deck.capacity, now),
            rec.kind == Kind::Overdub ==> rec.start == self.deck.rec->0.start && rec.align == self.deck.rec->0.align,
            rec.handoff matches Some(n) ==> self.lane(n as int).state == LaneState::Empty,
        ensures
            self.with_rec(Some(rec)).inv(now),
    {
        let after = self.with_rec(Some(rec));
        self.lemma_rec(now);
        self.lemma_lane(now, rec.lane as int);
        lemma_no_restore(self.deck, self.jobs);
        lemma_pool_same(self.deck, after.deck);
        lemma_rec_but_one(self.deck, after.deck, rec.lane as int, now);
        self.lemma_one_lane(after, now, rec.lane as int);
    }

    /// A rolling take past its downbeat swaps its pass with the kept one.
    pub proof fn lemma_pass_approved(self, now: Frame, i: int)
        requires
            self.inv(now),
            self.deck.rec is Some,
            self.deck.rec->0.lane == i,
            self.deck.rec->0.kind == Kind::Take,
            !self.lane(i).auto_armed,
        ensures
            self.pass_approved(i, Recorder { roll: None, ..self.deck.rec->0 }).inv(now),
    {
        let after = self.pass_approved(i, Recorder { roll: None, ..self.deck.rec->0 });
        self.lemma_rec(now);
        self.lemma_lane(now, i);
        lemma_no_restore(self.deck, self.jobs);
        lemma_pool_swapped(self.deck, after.deck, i, 10);
        lemma_rec_but_one(self.deck, after.deck, i, now);
        self.lemma_one_lane(after, now, i);
    }

    pub proof fn lemma_pass_completed(self, now: Frame)
        requires
            self.inv(now),
            self.deck.rec is Some,
            self.deck.rec->0.kind == Kind::Take,
            self.deck.rec->0.roll is Some,
            !self.lane(self.deck.rec->0.lane as int).armed,
            !self.lane(self.deck.rec->0.lane as int).auto_armed,
            self.deck.rec->0.end is Some,
            self.deck.rec->0.end->0 <= now,
        ensures
            self.pass_completed(now).inv(now),
            self.pass_completed(now).deck.rec is Some,
    {
        reveal(World::pass_completed);
        let rec = self.deck.rec->0;
        let i = rec.lane as int;
        let after = self.pass_completed(now);
        self.lemma_rec(now);
        self.lemma_lane(now, i);
        lemma_no_restore(self.deck, self.jobs);
        if rec.damaged {
            lemma_pool_same(self.deck, after.deck);
        } else {
            lemma_pool_swapped(self.deck, after.deck, i, 10);
        }
        lemma_rec_but_one(self.deck, after.deck, i, now);
        self.lemma_one_lane(after, now, i);
    }

    /// AUTO's take begun: from the onset on, the recorder has its window.
    pub proof fn lemma_auto_begun(self, now: Frame, align: Frame, onset: Frame, later: Frame)
        requires
            self.inv(now),
            self.deck.rec is Some,
            self.lane(self.deck.rec->0.lane as int).auto_armed,
            0 <= align <= LOOP_LIMIT,
            -2 * HORIZON + 4 * LOOP_LIMIT <= onset <= later,
            now <= later,
            grid::near(later as int),
            self.auto_begun(now, align, onset).parts_ok(later),
        ensures
            self.auto_begun(now, align, onset).inv(later),
    {
        self.lemma_inv_later(now, later);
        let rec = self.deck.rec->0;
        let i = rec.lane as int;
        let after = self.auto_begun(now, align, onset);
        self.lemma_rec(now);
        self.lemma_lane(now, i);
        self.lemma_take_frames();
        lemma_no_restore(self.deck, self.jobs);
        lemma_pool_same(self.deck, after.deck);
        lemma_rec_but_one(self.deck, after.deck, i, later);
        self.lemma_one_lane(after, later, i);
    }
}

/// A later take's bars are one at least, and fit the buffer.
pub proof fn lemma_later_bars_fit(asked: int, fpb: int, master: int, capacity: Frame)
    requires
        fpb >= 1,
        0 < master <= capacity,
        master % fpb == 0,
    ensures
        fpb <= grid::later_bars(asked, master / fpb, deck::most_bars(capacity, fpb)) * fpb <= capacity,
        master >= fpb,
        master / fpb >= 1,
        1 <= deck::most_bars(capacity, fpb) <= 32,
{
    let m = master / fpb;
    let most = deck::most_bars(capacity, fpb);
    let bars = grid::later_bars(asked, m, most);
    vstd::arithmetic::div_mod::lemma_fundamental_div_mod(master, fpb);
    vstd::arithmetic::div_mod::lemma_fundamental_div_mod(capacity as int, fpb);
    assert(m >= 1 && master >= fpb) by (nonlinear_arith)
        requires
            master == fpb * m,
            master > 0,
            fpb >= 1,
    ;
    let room = capacity as int / fpb;
    assert(room >= m) by (nonlinear_arith)
        requires
            capacity == fpb * room + capacity as int % fpb,
            capacity as int % fpb < fpb,
            master == fpb * m,
            master <= capacity,
            fpb >= 1,
    ;
    if asked > m {
        vstd::arithmetic::div_mod::lemma_fundamental_div_mod(asked, m);
        vstd::arithmetic::div_mod::lemma_fundamental_div_mod(most, m);
        let loops = grid::min_int(asked / m, grid::max_int(most / m, 1));
        assert(asked / m >= 1) by (nonlinear_arith)
            requires
                asked == m * (asked / m) + asked % m,
                0 <= asked % m < m,
                asked > m,
        ;
        assert(1 <= loops * m <= room) by (nonlinear_arith)
            requires
                1 <= loops,
                loops <= most / m || loops == 1,
                most == m * (most / m) + most % m,
                0 <= most % m,
                most <= room,
                1 <= m <= room,
        ;
    }
    assert(fpb <= bars * fpb <= capacity) by (nonlinear_arith)
        requires
            1 <= bars <= room,
            capacity == fpb * room + capacity as int % fpb,
            0 <= capacity as int % fpb,
            fpb >= 1,
    ;
}

impl World {
    /// A stop gesture on a capture past its downbeat ends it inside the engine's frames, a take not
    /// before it started.
    pub proof fn lemma_stop_target(self, now: Frame, i: int)
        requires
            self.inv(now),
            0 <= i < TRACK_COUNT,
            self.deck.rec is Some,
            self.deck.rec->0.lane == i,
            !self.lane(i).armed,
            !self.lane(i).auto_armed,
        ensures
            ({
                let rec = Recorder { roll: None, ..self.deck.rec->0 };
                let end = self.stop_target(now, self.lane(i), rec);
                &&& deck::kept(end as int)
                &&& rec.kind == Kind::Take ==> rec.start->0 <= end
                &&& self.window_cut(rec, end).inv(now)
            }),
    {
        let rec = Recorder { roll: None, ..self.deck.rec->0 };
        let t = self.lane(i);
        self.lemma_rec(now);
        self.lemma_lane(now, i);
        let fpb = self.fpb();
        grid::lemma_bar_bounds(self.clock.bpm as int, self.deck.sample_rate as int);
        let end = self.stop_target(now, t, rec);
        if t.state == LaneState::Recording {
            if self.deck.master == 0 {
                let elapsed = match rec.downbeat {
                    Some(d) => now - d,
                    None => 0,
                };
                let bars = grid::graced_bars(elapsed, fpb);
                if bars >= 1 {
                    grid::lemma_whole_bars_fit(
                        grid::clamped_bars(bars, grid::whole_bars(self.deck.capacity as int, fpb)),
                        self.deck.capacity as int,
                        fpb,
                        self.deck.capacity as int,
                    );
                }
            } else if self.deck.master as int % fpb == 0 {
                lemma_later_bars_fit(
                    grid::graced_bars(now - (rec.start->0 - rec.align), fpb),
                    fpb,
                    self.deck.master as int,
                    self.deck.capacity,
                );
            }
        }
        let cut = self.window_cut(rec, end);
        self.lemma_rec_changed(cut.deck.rec->0, now);
    }
}

// ── Commands ───────────────────────────────────────────────────────────────────────────────────────

/// Jobs none of which works on lane `i` do not care what that lane plays.
proof fn lemma_jobs_elsewhere(a: Deck, b: Deck, jobs: Seq<Option<Job>>, i: int)
    requires
        deck::jobs_ok(a, jobs),
        b.capacity == a.capacity,
        b.rec == a.rec,
        forall|k: int| 0 <= k < TRACK_COUNT && k != i ==> #[trigger] b.lanes@[k] == a.lanes@[k],
        forall|k: int| 0 <= k < jobs.len() && (#[trigger] jobs[k]) is Some ==> jobs[k]->0.lane != i,
    ensures
        deck::jobs_ok(b, jobs),
{
    reveal(deck::jobs_ok);
    assert forall|k: int| 0 <= k < jobs.len() && (#[trigger] jobs[k]) is Some implies {
        let job = jobs[k]->0;
        &&& job.wf(b.capacity as int)
        &&& job.kind is Restore ==> b.rec is None && b.lanes@[job.lane as int].audible.buf
            == b.lanes@[job.lane as int].live
    } by {
        let job = jobs[k]->0;
        assert(job.lane != i);
        assert(job.wf(a.capacity as int));
        assert(b.lanes@[job.lane as int] == a.lanes@[job.lane as int]);
    }
}

impl World {
    /// A loop-end stop set on a lane that plays.
    pub proof fn lemma_stop_set(self, now: Frame, i: int, at: Frame)
        requires
            self.inv(now),
            0 <= i < TRACK_COUNT,
            self.lane(i).is_committed(),
            deck::kept(at as int),
        ensures
            self.with_lane(i, Lane { stop_at: Some(at), ..self.lane(i) }).inv(now),
    {
        let after = self.with_lane(i, Lane { stop_at: Some(at), ..self.lane(i) });
        self.lemma_lane(now, i);
        lemma_pool_same(self.deck, after.deck);
        lemma_rec_elsewhere(self.deck, after.deck, i, now);
        if after.deck.rec is Some {
            lemma_no_restore(self.deck, self.jobs);
        }
        self.lemma_one_lane(after, now, i);
    }

    /// The loop boundary from now on is a frame the looper stores.
    pub proof fn lemma_boundary(self, now: Frame)
        requires
            self.inv(now),
        ensures
            deck::kept(self.boundary(now) as int),
            self.deck.master > 0 ==> now <= self.boundary(now) < now + self.deck.master,
            self.boundary(now) as int == grid::boundary_after(
                self.deck.anchor as int,
                self.deck.master as int,
                now as int,
            ),
    {
        if self.deck.master > 0 {
            grid::law_next_boundary_is_the_first_loop_start(
                self.deck.anchor as int,
                self.deck.master as int,
                now as int,
            );
        }
    }

    pub proof fn lemma_undone(self, now: Frame, i: int)
        requires
            self.inv(now),
            0 <= i < TRACK_COUNT,
        ensures
            self.undone(now, i).inv(now),
    {
        if self.may_undo(i) && self.undo_answer(i) == crate::deck::Applied::Done {
            let after = self.undone(now, i);
            self.lemma_lane(now, i);
            self.lemma_boundary(now);
            lemma_none_delays(self.jobs, Some(i as usize), false);
            lemma_pool_swapped(self.deck, after.deck, i, i + 5);
            lemma_rec_elsewhere(self.deck, after.deck, i, now);
            lemma_lanes_but_one(self.deck, after.deck, i);
            lemma_jobs_elsewhere(self.deck, after.deck, self.jobs, i);
            lemma_whole_but_one(self, after, i);
            tasks::lemma_free_undelayed(self.jobs, i, false);
            tasks::lemma_suits_free(self.jobs, self.lane(i), after.lane(i), i, now);
            tasks::lemma_tasks_lane(self.deck, after.deck, self.jobs, now, i);
        }
    }

    pub proof fn lemma_turned(self, now: Frame, i: int)
        requires
            self.inv(now),
            0 <= i < TRACK_COUNT,
        ensures
            self.turned(now, i).inv(now),
    {
        if self.may_reverse(i) && self.reverse_answer(i) == crate::deck::Applied::Done {
            let after = self.turned(now, i);
            self.lemma_lane(now, i);
            self.lemma_boundary(now);
            lemma_none_delays(self.jobs, Some(i as usize), false);
            lemma_pool_same(self.deck, after.deck);
            lemma_rec_elsewhere(self.deck, after.deck, i, now);
            lemma_lanes_but_one(self.deck, after.deck, i);
            lemma_jobs_elsewhere(self.deck, after.deck, self.jobs, i);
            lemma_whole_but_one(self, after, i);
            tasks::lemma_free_undelayed(self.jobs, i, false);
            tasks::lemma_suits_free(self.jobs, self.lane(i), after.lane(i), i, now);
            tasks::lemma_tasks_lane(self.deck, after.deck, self.jobs, now, i);
        }
    }

    pub proof fn lemma_first_target(self, k: int)
        requires
            0 <= k <= TRACK_COUNT,
        ensures
            self.first_target(k) matches Some(j) ==> k <= j < TRACK_COUNT && self.copy_target(j),
        decreases TRACK_COUNT - k,
    {
        if k < TRACK_COUNT && !self.copy_target(k) {
            self.lemma_first_target(k + 1);
        }
    }

    pub proof fn lemma_copied(self, now: Frame, i: int)
        requires
            self.inv(now),
            0 <= i < TRACK_COUNT,
        ensures
            self.copied(now, i).inv(now),
    {
        self.lemma_first_target(0);
        let src = self.lane(i);
        if src.is_committed() && self.copy_answer(i) == crate::deck::Applied::Done && self.first_target(0) is Some {
            let j = self.first_target(0)->0;
            let after = self.copied(now, i);
            let t = self.lane(j);
            self.lemma_lane(now, i);
            self.lemma_lane(now, j);
            lemma_pool_apart(self.deck, i, j);
            lemma_pool_same(self.deck, after.deck);
            lemma_rec_elsewhere(self.deck, after.deck, j, now);
            lemma_lanes_but_one(self.deck, after.deck, j);
            if after.deck.rec is Some {
                lemma_no_restore(self.deck, self.jobs);
            }
            lemma_jobs_same(self.deck, after.deck, self.jobs);
            let job = Job {
                kind: JobKind::LaneCopy {
                    src: src.live,
                    dst: t.live,
                    from: i as usize,
                    to: j as usize,
                    resume: src.state == LaneState::Playing && src.stop_at is None,
                },
                lane: j as usize,
                visit: deck::Visit { lo: 0, span: self.deck.master, off: 0, modulus: self.deck.master },
                start: now,
                progress: 0,
            };
            lemma_jobs_more(after.deck, self.jobs, job);
            tasks::lemma_free_undelayed(self.jobs, i, false);
            tasks::lemma_not_busy(self.jobs, i);
            tasks::lemma_free(self.deck, self.jobs, now, j);
            tasks::lemma_suits_free(self.jobs, t, after.lane(j), j, now);
            tasks::lemma_tasks_lane(self.deck, after.deck, self.jobs, now, j);
            assert(src.period == self.deck.master) by {
                reveal(deck::whole_ok);
                assert(self.deck.lanes@[i].is_committed());
            }
            tasks::lemma_joins(self.jobs, job);
            tasks::lemma_tasks_more(after.deck, self.jobs, job, now);
            lemma_first_free(self.jobs);
            lemma_busy_more(self.jobs, after.jobs[deck::first_free(self.jobs)]->0);
            lemma_whole_but_one(self, after, j);
        }
    }

    /// A lane cleared, up to the reset.
    proof fn lemma_cleared_lane(self, after: World, now: Frame, i: int)
        requires
            self.inv(now),
            0 <= i < TRACK_COUNT,
            after.parts_ok(now),
            after.deck == (Deck { lanes: after.deck.lanes, rec: after.deck.rec, ..self.deck }),
            after.deck.lanes@ == self.deck.lanes@.update(i, Lane::blank(self.lane(i).live, self.lane(i).spare)),
            after.deck.rec == (if self.deck.rec is Some && self.deck.rec->0.lane == i {
                None
            } else {
                self.deck.rec
            }),
            after.jobs == self.jobs,
            tasks::free_of(self.jobs, i),
        ensures
            after.inv(now),
    {
        self.lemma_lane(now, i);
        lemma_pool_same(self.deck, after.deck);
        tasks::lemma_suits_free(self.jobs, self.lane(i), after.lane(i), i, now);
        if self.deck.rec is Some {
            lemma_no_restore(self.deck, self.jobs);
        }
        if self.deck.rec is Some && self.deck.rec->0.lane == i {
            lemma_rec_but_one(self.deck, after.deck, i, now);
        } else {
            lemma_rec_elsewhere(self.deck, after.deck, i, now);
        }
        self.lemma_one_lane(after, now, i);
    }

    pub proof fn lemma_cleared_now(self, now: Frame, i: int)
        requires
            self.inv(now),
            0 <= i < TRACK_COUNT,
            tasks::free_of(self.jobs, i),
            self.cleared_now(now, i).parts_ok(now),
        ensures
            self.cleared_now(now, i).inv(now),
    {
        let w = self.released(i);
        let t = w.lane(i);
        let w2 = (World {
            fx: w.fx.push(crate::deck::FxAction::Reset { lane: i as u8 }),
            ..w
        }).with_lane(i, Lane::blank(t.live, t.spare));
        let calm = World { clock: self.clock, ..w2 };
        assert(calm.deck.lanes@ =~= self.deck.lanes@.update(i, Lane::blank(self.lane(i).live, self.lane(i).spare)));
        self.lemma_cleared_lane(calm, now, i);
        let after = self.cleared_now(now, i);
        assert(after == w2.reset_if_blank(now));
        if w2.blank() {
            calm.lemma_reset_if_blank_of(after, now);
        }
    }
}

// ── Time ───────────────────────────────────────────────────────────────────────────────────────────

impl World {
    /// A lane that plays its own buffer.
    pub proof fn lemma_swapped(self, now: Frame, i: int)
        requires
            self.inv(now),
            0 <= i < TRACK_COUNT,
        ensures
            self.swapped(i).inv(now),
    {
        let after = self.swapped(i);
        self.lemma_lane(now, i);
        lemma_pool_same(self.deck, after.deck);
        if self.deck.rec is Some {
            self.lemma_rec(now);
            lemma_no_restore(self.deck, self.jobs);
        }
        if self.lane(i).is_capturing() {
            lemma_rec_but_one(self.deck, after.deck, i, now);
        } else {
            lemma_rec_elsewhere(self.deck, after.deck, i, now);
        }
        self.lemma_one_lane(after, now, i);
    }

    /// A job of the table keeps its part.
    pub proof fn lemma_job_known(self, now: Frame, k: int)
        requires
            self.inv(now),
            0 <= k < self.jobs.len(),
            self.jobs[k] is Some,
        ensures
            ({
                let job = self.jobs[k]->0;
                &&& job.wf(self.deck.capacity as int)
                &&& job.kind is Restore ==> self.deck.rec is None && self.lane(job.lane as int).audible.buf == self.lane(
                    job.lane as int,
                ).live
            }),
    {
        reveal(deck::jobs_ok);
    }

    /// A job further on its way.
    pub proof fn lemma_job_advanced(self, now: Frame, k: int, job: Job)
        requires
            self.inv(now),
            0 <= k < self.jobs.len(),
            self.jobs[k] is Some,
            job.wf(self.deck.capacity as int),
            job == (Job { progress: job.progress, ..self.jobs[k]->0 }),
        ensures
            (World { jobs: self.jobs.update(k, Some(job)), ..self }).inv(now),
    {
        reveal(deck::jobs_ok);
        let after = self.jobs.update(k, Some(job));
        let w = World { jobs: after, ..self };
        assert forall|n: int| deck::busy(self.jobs, n) implies #[trigger] deck::busy(after, n) by {
            let j = choose|j: int| 0 <= j < self.jobs.len() && (#[trigger] self.jobs[j]) is Some && self.jobs[j]->0.lane == n;
            assert(after[j] is Some && after[j]->0.lane == n);
        }
        lemma_whole_but_one(self, w, 0);
        tasks::lemma_tasks_advanced(self.deck, self.jobs, after, now);
        assert forall|j: int| 0 <= j < after.len() && (#[trigger] after[j]) is Some implies {
            let job = after[j]->0;
            &&& job.wf(self.deck.capacity as int)
            &&& job.kind is Restore ==> self.deck.rec is None && self.deck.lanes@[job.lane as int].audible.buf
                == self.deck.lanes@[job.lane as int].live
        } by {
            assert(self.jobs[j] is Some);
        }
    }

    /// The jobs that were in a table are there still, and no other is done by a frame.
    pub open spec fn only_later(self, before: Seq<Option<Job>>, now: Frame) -> bool {
        &&& before.len() <= self.jobs.len()
        &&& forall|k: int| 0 <= k < before.len() && before[k] is Some ==> #[trigger] self.jobs[k] == before[k]
        &&& forall|k: int|
            0 <= k < self.jobs.len() && (#[trigger] self.jobs[k]) is Some && !(k < before.len() && before[k] is Some)
                ==> self.jobs[k]->0.done_at() > now
    }

    /// Catching up only starts jobs.
    pub proof fn lemma_caught_up_same(self, now: Frame, k: int)
        ensures
            self.caught_up(now, k) == (World { jobs: self.caught_up(now, k).jobs, ..self }),
    {
        reveal(World::caught_up);
    }

    /// A job that repeats a lane's loop keeps its part.
    proof fn lemma_repeated(self, now: Frame, k: int, buf: usize)
        requires
            grid::near(now as int),
            self.deck.settings_ok(),
            deck::jobs_ok(self.deck, self.jobs),
            0 <= k < TRACK_COUNT,
            buf < BUFFER_COUNT,
            0 < self.lane(k).period < self.lane(k).length <= self.deck.capacity,
        ensures
            deck::jobs_ok(self.deck, self.repeated(now, k, buf).jobs),
            no_restore(self.jobs) ==> no_restore(self.repeated(now, k, buf).jobs),
            self.repeated(now, k, buf).only_later(self.jobs, now),
            deck::busy(self.repeated(now, k, buf).jobs, k),
            self.repeated(now, k, buf) == (World { jobs: self.repeated(now, k, buf).jobs, ..self }),
    {
        let t = self.lane(k);
        let job = Job {
            kind: JobKind::Fill {
                buf,
                fill: grid::TakeFill { raw: t.period, period: t.period, master: t.length },
            },
            lane: k as usize,
            visit: deck::Visit {
                lo: t.period,
                span: (t.length - t.period) as Frame,
                off: 0,
                modulus: t.length,
            },
            start: now,
            progress: 0,
        };
        lemma_jobs_more(self.deck, self.jobs, job);
        lemma_first_free(self.jobs);
        lemma_busy_more(self.jobs, job);
        let span = job.visit.span as int;
        assert((span + JOB_RATE - 1) / (JOB_RATE as int) >= 1) by (nonlinear_arith)
            requires
                span >= 1,
        ;
        assert(job.done_at() > now);
    }

    /// Catching up keeps the jobs' part of the invariant.
    proof fn lemma_caught_up_jobs(self, now: Frame, k: int)
        requires
            grid::near(now as int),
            self.deck.settings_ok(),
            deck::jobs_ok(self.deck, self.jobs),
            0 <= k < TRACK_COUNT,
            self.lane(k).live < BUFFER_COUNT,
            self.lane(k).spare < BUFFER_COUNT,
            self.lane(k).is_committed() ==> 0 < self.lane(k).period <= self.lane(k).length <= self.deck.capacity,
        ensures
            deck::jobs_ok(self.deck, self.caught_up(now, k).jobs),
            no_restore(self.jobs) ==> no_restore(self.caught_up(now, k).jobs),
            self.caught_up(now, k).only_later(self.jobs, now),
            self.lane(k).is_committed() && self.lane(k).period < self.lane(k).length ==> deck::busy(
                self.caught_up(now, k).jobs,
                k,
            ),
            forall|j: int| deck::busy(self.jobs, j) ==> #[trigger] deck::busy(self.caught_up(now, k).jobs, j),
    {
        self.lemma_caught_up_busy(now, k);
        reveal(World::caught_up);
        let t = self.lane(k);
        if t.is_committed() && t.period < t.length && !deck::busy(self.jobs, k) {
            if t.undo_valid {
                self.lemma_repeated(now, k, t.spare);
                let w = self.repeated(now, k, t.spare);
                w.lemma_repeated(now, k, t.live);
                let v = w.repeated(now, k, t.live);
                assert forall|j: int| 0 <= j < self.jobs.len() && self.jobs[j] is Some implies #[trigger] v.jobs[j]
                    == self.jobs[j] by {
                    assert(w.jobs[j] == self.jobs[j]);
                }
                assert forall|j: int|
                    0 <= j < v.jobs.len() && (#[trigger] v.jobs[j]) is Some && !(j < self.jobs.len()
                        && self.jobs[j] is Some) implies v.jobs[j]->0.done_at() > now by {
                    if j < w.jobs.len() && w.jobs[j] is Some {
                        assert(v.jobs[j] == w.jobs[j]);
                    }
                }
            } else {
                self.lemma_repeated(now, k, t.live);
            }
        }
    }

    /// The jobs of a lane that catches up repeat its loop past it.
    proof fn lemma_caught_up_tasks(self, now: Frame, k: int)
        requires
            tasks::tasks_ok(self.deck, self.jobs, now),
            0 <= k < TRACK_COUNT,
            self.lane(k).live != self.lane(k).spare,
        ensures
            tasks::tasks_ok(self.deck, self.caught_up(now, k).jobs, now),
    {
        reveal(World::caught_up);
        let t = self.lane(k);
        if t.is_committed() && t.period < t.length && !deck::busy(self.jobs, k) {
            let w = if t.undo_valid {
                self.repeated(now, k, t.spare)
            } else {
                self
            };
            if t.undo_valid {
                self.lemma_repeated_tasks(now, k, t.spare);
            }
            assert forall|j: int|
                0 <= j < w.jobs.len() && (#[trigger] w.jobs[j]) is Some && w.jobs[j]->0.lane == k implies w.jobs[j]->0
                == w.repeats(now, k, t.spare) by {
                if t.undo_valid {
                    lemma_first_free(self.jobs);
                    if j != deck::first_free(self.jobs) {
                        assert(w.jobs[j] == self.jobs[j]);
                    }
                }
            }
            w.lemma_repeated_tasks(now, k, t.live);
        }
    }

    /// The job that repeats a lane's loop in a buffer.
    spec fn repeats(self, now: Frame, k: int, buf: usize) -> Job {
        let t = self.lane(k);
        Job {
            kind: JobKind::Fill {
                buf,
                fill: grid::TakeFill { raw: t.period, period: t.period, master: t.length },
            },
            lane: k as usize,
            visit: deck::Visit {
                lo: t.period,
                span: (t.length - t.period) as Frame,
                off: 0,
                modulus: t.length,
            },
            start: now,
            progress: 0,
        }
    }

    /// One of them gets along with the other.
    proof fn lemma_repeated_tasks(self, now: Frame, k: int, buf: usize)
        requires
            tasks::tasks_ok(self.deck, self.jobs, now),
            0 <= k < TRACK_COUNT,
            self.lane(k).is_committed(),
            self.lane(k).period < self.lane(k).length,
            buf == self.lane(k).live || buf == self.lane(k).spare,
            forall|j: int|
                0 <= j < self.jobs.len() && (#[trigger] self.jobs[j]) is Some && self.jobs[j]->0.lane == k ==> exists|
                    other: usize|
                    other != buf && self.jobs[j]->0 == #[trigger] self.repeats(now, k, other),
        ensures
            tasks::tasks_ok(self.deck, self.repeated(now, k, buf).jobs, now),
    {
        let job = self.repeats(now, k, buf);
        assert(self.repeated(now, k, buf).jobs == deck::with_job(self.jobs, job));
        tasks::lemma_joins_repeat(self.deck, self.jobs, job, now);
        tasks::lemma_tasks_more(self.deck, self.jobs, job, now);
    }

    /// No lane loses its jobs while one catches up.
    proof fn lemma_caught_up_busy(self, now: Frame, k: int)
        ensures
            forall|j: int| deck::busy(self.jobs, j) ==> #[trigger] deck::busy(self.caught_up(now, k).jobs, j),
    {
        reveal(World::caught_up);
        let t = self.lane(k);
        let after = self.caught_up(now, k);
        let w = if t.undo_valid {
            self.repeated(now, k, t.spare)
        } else {
            self
        };
        if t.is_committed() && t.period < t.length && !deck::busy(self.jobs, k) {
            assert forall|j: int| deck::busy(self.jobs, j) implies #[trigger] deck::busy(after.jobs, j) by {
                if t.undo_valid {
                    lemma_first_free(self.jobs);
                    lemma_busy_more(self.jobs, w.jobs[deck::first_free(self.jobs)]->0);
                }
                assert(deck::busy(w.jobs, j));
                lemma_first_free(w.jobs);
                lemma_busy_more(w.jobs, after.jobs[deck::first_free(w.jobs)]->0);
            }
        }
    }

    /// The job of a slot completed and out of the table.
    pub proof fn lemma_job_due(self, now: Frame, k: int)
        requires
            self.inv(now),
            0 <= k < self.jobs.len(),
            self.job_done(now, k),
            self.job_brought(now, self.jobs[k]->0).parts_ok(now),
        ensures
            self.job_due(now, k).inv(now),
            self.job_due(now, k).only_later(self.jobs.update(k, None), now),
            self.job_brought(now, self.jobs[k]->0).inv(now),
            self.job_brought(now, self.jobs[k]->0).jobs == self.jobs,
    {
        reveal(World::job_due);
        self.lemma_job_known(now, k);
        let job = self.jobs[k]->0;
        let lane = job.lane as int;
        let b = self.job_brought(now, job);
        assert(b.jobs == self.jobs) by {
            reveal(World::job_brought);
            match job.kind {
                JobKind::LaneCopy { from, to, .. } => {
                    self.say(
                        crate::api::Event::Copied { frame: now, from: from as u8, to: to as u8 },
                    ).lemma_resumed_jobs(now, to as int);
                },
                _ => {},
            }
        }
        assert(deck::busy(self.jobs, lane));
        self.lemma_job_brought(now, k);
        let c = World { jobs: b.jobs.update(k, None), ..b };
        lemma_jobs_fewer(b.deck, b.jobs, c.jobs);
        b.lemma_lane(now, lane);
        c.lemma_caught_up_same(now, lane);
        c.lemma_caught_up_jobs(now, lane);
        tasks::lemma_tasks_fewer(b.deck, b.jobs, c.jobs, now);
        c.lemma_caught_up_tasks(now, lane);
        let after = self.job_due(now, k);
        assert(after == c.caught_up(now, lane));
        assert(deck::whole_ok(after.deck, after.jobs)) by {
            reveal(deck::whole_ok);
            assert forall|j: int| 0 <= j < TRACK_COUNT && (#[trigger] after.deck.lanes@[j]).is_committed() implies after.deck.lanes@[j].period
                == after.deck.lanes@[j].length || deck::busy(after.jobs, j) by {
                assert(b.deck.lanes@[j].is_committed());
                if j != lane && deck::busy(b.jobs, j) {
                    let n = choose|n: int| 0 <= n < b.jobs.len() && (#[trigger] b.jobs[n]) is Some && b.jobs[n]->0.lane == j;
                    assert(c.jobs[n] == b.jobs[n]);
                    assert(deck::busy(c.jobs, j));
                }
            }
        }
    }

    /// What a job's end brings about in the deck.
    pub proof fn lemma_job_brought(self, now: Frame, k: int)
        requires
            self.inv(now),
            0 <= k < self.jobs.len(),
            self.job_done(now, k),
            self.job_brought(now, self.jobs[k]->0).parts_ok(now),
        ensures
            self.job_brought(now, self.jobs[k]->0).inv(now),
    {
        reveal(World::job_brought);
        let job = self.jobs[k]->0;
        self.lemma_job_known(now, k);
        tasks::lemma_rests_due(self.deck, self.jobs, k, now);
        assert(deck::busy(self.jobs, job.lane as int));
        let after = self.job_brought(now, job);
        match job.kind {
            JobKind::Restore { prev_undo_valid, prev_spare_reversed, .. } => {
                let i = job.lane as int;
                self.lemma_lane(now, i);
                lemma_pool_swapped(self.deck, after.deck, i + 5, 10);
                lemma_rec_elsewhere(self.deck, after.deck, i, now);
                tasks::lemma_suits_rested(self.deck, self.jobs, after.lane(i), i, now);
                self.lemma_one_lane(after, now, i);
            },
            JobKind::LaneCopy { from, to, resume, .. } => {
                let w = self.say(crate::api::Event::Copied { frame: now, from: from as u8, to: to as u8 });
                assert(w.inv(now));
                if resume && w.lane(to as int).state == LaneState::Stopped {
                    w.lemma_resumed(now, to as int, true);
                    w.lemma_resumed_jobs(now, to as int);
                }
            },
            JobKind::Fill { buf, fill } => {
                let i = job.lane as int;
                self.lemma_lane(now, i);
                let t = self.lane(i);
                if t.is_committed() && t.live == buf && t.length as int % fill.master as int == 0 {
                    assert(fill.master <= t.length) by {
                        if fill.master > t.length {
                            vstd::arithmetic::div_mod::lemma_small_mod(t.length as nat, fill.master as nat);
                        }
                    }
                    lemma_pool_same(self.deck, after.deck);
                    lemma_rec_elsewhere(self.deck, after.deck, i, now);
                    if after.deck.rec is Some {
                        lemma_no_restore(self.deck, self.jobs);
                    }
                    tasks::lemma_suits_filled(self.deck, self.jobs, k, now);
                    self.lemma_one_lane(after, now, i);
                }
            },
            _ => {},
        }
    }

    /// A resume leaves the jobs as they are.
    proof fn lemma_resumed_jobs(self, now: Frame, i: int)
        ensures
            self.resumed(now, i, true).jobs == self.jobs,
    {
        reveal(World::resumed);
        reveal(World::restarted_if_idle);
    }

    /// The recorder's window open on its lane.
    pub proof fn lemma_opened(self, now: Frame)
        requires
            self.inv(now),
            self.deck.rec is Some,
        ensures
            self.opened(now).inv(now),
            self.opened(now).deck.rec == self.deck.rec,
            self.window_ended(now) ==> !self.opened(now).lane(self.deck.rec->0.lane as int).armed,
            self.opened(now).lane(self.deck.rec->0.lane as int).auto_armed == self.lane(
                self.deck.rec->0.lane as int,
            ).auto_armed,
    {
        let after = self.opened(now);
        let i = self.deck.rec->0.lane as int;
        self.lemma_rec(now);
        self.lemma_lane(now, i);
        lemma_no_restore(self.deck, self.jobs);
        lemma_pool_same(self.deck, after.deck);
        lemma_rec_but_one(self.deck, after.deck, i, now);
        self.lemma_one_lane(after, now, i);
    }
}

impl World {
    /// A block captured.
    pub proof fn lemma_captured(self, now: Frame, f0: Frame, frames: int)
        requires
            self.inv(now),
            0 <= frames <= LOOP_LIMIT,
            grid::near(f0 as int),
        ensures
            self.captured(f0, frames).inv(now),
            self.captures(f0, frames) ==> {
                let rec = self.deck.rec->0;
                let (lo, hi) = self.window(f0, frames);
                &&& rec.lane < TRACK_COUNT
                &&& f0 <= lo < hi <= f0 + frames
                &&& rec.start->0 <= lo
                &&& rec.kind == Kind::Take ==> rec.end is Some && hi - rec.start->0 <= self.deck.capacity
                &&& rec.kind == Kind::Overdub ==> self.deck.master > 0 && 0 <= rec.summed <= self.deck.master
                &&& 0 <= rec.align <= LOOP_LIMIT
            },
    {
        if self.captures(f0, frames) {
            let rec = self.deck.rec->0;
            let i = rec.lane as int;
            let after = self.captured(f0, frames);
            self.lemma_rec(now);
            self.lemma_lane(now, i);
            lemma_no_restore(self.deck, self.jobs);
            lemma_pool_same(self.deck, after.deck);
            lemma_rec_but_one(self.deck, after.deck, i, now);
            self.lemma_one_lane(after, now, i);
        }
    }

    /// An empty layer dropped.
    pub proof fn lemma_layer_dropped(self, now: Frame, i: int)
        requires
            self.inv(now),
            0 <= i < TRACK_COUNT,
            self.lane(i).state == LaneState::Overdubbing,
            self.deck.rec is Some,
            self.layer_dropped(now, i, self.deck.rec->0).parts_ok(now),
        ensures
            self.layer_dropped(now, i, self.deck.rec->0).inv(now),
    {
        self.lemma_lane(now, i);
        self.lemma_rec(now);
        self.lemma_layer(now, i);
        let rec = self.deck.rec->0;
        let mid = self.layer_discarded(now, i, rec);
        self.lemma_layer_settled(mid, self.layer_dropped(now, i, rec), now, i);
    }

    /// The recorder's window ended now.
    pub proof fn lemma_cut_now(self, now: Frame)
        requires
            self.inv(now),
            self.deck.rec is Some,
            !self.rec_lane().armed,
            !self.rec_lane().auto_armed,
        ensures
            self.window_cut(Recorder { roll: None, ..self.deck.rec->0 }, now).inv(now),
    {
        self.lemma_rec(now);
        let rec = Recorder { roll: None, ..self.deck.rec->0 };
        self.lemma_rec_changed(self.window_cut(rec, now).deck.rec->0, now);
    }
}

impl World {
    /// AUTO's onset retained on its lane.
    pub proof fn lemma_retained(self, after: World, now: Frame)
        requires
            self.inv(now),
            self.deck.rec is Some,
            ({
                let i = self.deck.rec->0.lane as int;
                &&& after.deck == (Deck { lanes: after.deck.lanes, ..self.deck })
                &&& after.deck.lanes@ == self.deck.lanes@.update(
                    i,
                    Lane { written: after.lane(i).written, ..self.lane(i) },
                )
                &&& 0 <= after.lane(i).written <= self.deck.capacity
            }),
            after.jobs == self.jobs,
            after.clock == self.clock,
        ensures
            after.inv(now),
    {
        let i = self.deck.rec->0.lane as int;
        self.lemma_rec(now);
        self.lemma_lane(now, i);
        lemma_no_restore(self.deck, self.jobs);
        lemma_pool_same(self.deck, after.deck);
        lemma_rec_but_one(self.deck, after.deck, i, now);
        self.lemma_one_lane(after, now, i);
    }
}

impl World {
    /// A blank session given a master.
    pub proof fn lemma_load_begun(self, after: World, now: Frame)
        requires
            self.inv(now),
            self.blank(),
            after.parts_ok(now),
            after.deck == (Deck { master: after.deck.master, anchor: after.deck.anchor, ..self.deck }),
            after.jobs == self.jobs,
        ensures
            after.inv(now),
    {
        reveal(Deck::is_blank);
        reveal(Deck::lanes_ok);
        reveal(Deck::rec_ok);
        assert forall|k: int| 0 <= k < TRACK_COUNT implies (#[trigger] after.deck.lanes@[k]).ok(
            after.deck.master,
            after.deck.capacity,
        ) by {
            assert(self.deck.lanes@[k].ok(self.deck.master, self.deck.capacity));
        }
        lemma_pool_same(self.deck, after.deck);
        lemma_jobs_same(self.deck, after.deck, self.jobs);
        lemma_whole_but_one(self, after, 0);
        tasks::lemma_none_when_blank(self.deck, self.jobs, now);
        tasks::lemma_tasks_none(after.deck, self.jobs, now);
    }

    /// A lane of a load.
    pub proof fn lemma_lane_loaded(self, now: Frame, i: int, reversed: bool, playing: bool)
        requires
            self.inv(now),
            self.deck.master > 0,
            self.deck.rec is None,
            0 <= i < TRACK_COUNT,
            tasks::free_of(self.jobs, i),
        ensures
            self.lane_loaded(i, reversed, playing).inv(now),
    {
        let after = self.lane_loaded(i, reversed, playing);
        self.lemma_lane(now, i);
        lemma_pool_same(self.deck, after.deck);
        lemma_rec_but_one(self.deck, after.deck, i, now);
        tasks::lemma_suits_free(self.jobs, self.lane(i), after.lane(i), i, now);
        self.lemma_one_lane(after, now, i);
    }
}

/// Two lanes' live buffers are different ones.
pub proof fn lemma_pool_apart(d: Deck, i: int, j: int)
    requires
        d.pool_ok(),
        0 <= i < TRACK_COUNT,
        0 <= j < TRACK_COUNT,
        i != j,
    ensures
        d.lanes@[i].live != d.lanes@[j].live,
{
    reveal(Deck::pool_ok);
    if i < j {
        assert(d.owner(i) != d.owner(j));
    } else {
        assert(d.owner(j) != d.owner(i));
    }
}

} // verus!
