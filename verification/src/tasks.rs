//! Where the block jobs stand: every job works on buffers of its own lane (a copy reads another lane's), no
//! two jobs get in each other's way, a layer is captured behind the copy of its loop, and no job writes where
//! a head has been.

use vstd::prelude::*;

use crate::api::{LaneState, TRACK_COUNT};
use crate::deck;
use crate::deck::{Deck, Job, JobKind, Kind, Lane, Recorder, Visit, JOB_RATE};
use crate::grid;
use crate::grid::{Frame, LOOP_LIMIT};
use crate::keeps;

verus! {

/// Steps `from..to` of a visit come to a position.
pub open spec fn hits(visit: Visit, from: int, to: int, p: int) -> bool {
    exists|s: int| from <= s < to && #[trigger] visit.pos(s) == p
}

/// The steps a job started at `start` owes by a frame.
pub open spec fn owed_by(visit: Visit, start: Frame, f: int) -> int {
    grid::min_int(visit.span as int, JOB_RATE * (f - start))
}

/// The position a lane's head is on at a frame is visited after that frame.
pub open spec fn visits_late(deck: Deck, lane: int, visit: Visit, start: Frame, f: int) -> bool {
    hits(visit, owed_by(visit, start, f + 1), visit.span as int, deck.heard(lane, f))
}

/// From now on a job writes nowhere where its lane's head has been.
pub open spec fn ahead(deck: Deck, lane: int, visit: Visit, start: Frame, now: Frame) -> bool {
    forall|f: int| now <= f ==> !(#[trigger] visits_late(deck, lane, visit, start, f))
}

/// The copy that makes an overdub's undo target began on the overdub's first frame, where the head was; what
/// the overdub captures begins the alignment later.
pub open spec fn shadows(deck: Deck, job: Job) -> bool {
    deck.rec matches Some(r) ==> r.kind == Kind::Overdub && r.lane == job.lane ==> {
        &&& r.start is Some
        &&& r.start->0 == job.start + r.align
        &&& job.visit == (Visit {
            lo: 0,
            span: deck.master,
            off: grid::pos_in_loop(job.start as int, deck.anchor as int, deck.master as int) as Frame,
            modulus: deck.master,
        })
    }
}

/// A job's lane has a loop, and so has the lane it copies from.
pub open spec fn stands(deck: Deck, job: Job, now: Frame) -> bool {
    let t = deck.lanes@[job.lane as int];
    &&& job.start <= now
    &&& t.is_committed() || t.state == LaneState::Overdubbing && job.kind is Copy
    &&& match job.kind {
        JobKind::Fill { .. } => t.period <= job.visit.modulus,
        JobKind::LaneCopy { from, to, .. } => {
            &&& to == job.lane
            &&& from != to
            &&& deck.lanes@[from as int].is_committed()
            &&& job.visit.modulus <= deck.lanes@[from as int].period
        },
        _ => true,
    }
}

/// A job works on its lane's buffers.
pub open spec fn holds_buffers(deck: Deck, job: Job) -> bool {
    let t = deck.lanes@[job.lane as int];
    match job.kind {
        JobKind::Fill { buf, .. } => buf == t.live || buf == t.spare,
        JobKind::Copy { src, dst } => {
            &&& src == t.live
            &&& dst == t.spare
            &&& t.switch_at is None
            &&& shadows(deck, job)
        },
        JobKind::Restore { src, dst, .. } => src == t.spare && dst == t.live,
        JobKind::LaneCopy { src, dst, from, .. } => {
            &&& dst == t.live
            &&& src == deck.lanes@[from as int].live
            &&& t.state == LaneState::Stopped
        },
    }
}

/// A job writes past the loop its lane plays round, or not into what the lane plays, or ahead of its head.
pub open spec fn spares_head(deck: Deck, job: Job, now: Frame) -> bool {
    let t = deck.lanes@[job.lane as int];
    t.state == LaneState::Playing ==> {
        ||| job.kind is Fill && t.period <= job.visit.lo
        ||| t.switch_at is None && (job.writes() != t.audible.buf || ahead(
            deck,
            job.lane as int,
            job.visit,
            job.start,
            now,
        ))
    }
}

pub open spec fn task_ok(deck: Deck, job: Job, now: Frame) -> bool {
    &&& stands(deck, job, now)
    &&& job.done_at() <= now || holds_buffers(deck, job) && spares_head(deck, job, now)
}

/// Two jobs on one lane fill its two buffers at one time; a job on a lane that another copies from fills it
/// past what is copied.
pub open spec fn pair_ok(j: Job, k: Job) -> bool {
    &&& j.lane == k.lane ==> {
        &&& j.kind is Fill
        &&& k.kind is Fill
        &&& j.writes() != k.writes()
        &&& j.done_at() == k.done_at()
        &&& j.visit.modulus == k.visit.modulus
    }
    &&& k.kind is LaneCopy && k.kind->from == j.lane ==> j.kind is Fill && k.visit.modulus <= j.visit.lo
}

/// Where every job of the table stands.
#[verifier::opaque]
pub open spec fn tasks_ok(deck: Deck, jobs: Seq<Option<Job>>, now: Frame) -> bool {
    &&& forall|k: int| 0 <= k < jobs.len() && (#[trigger] jobs[k]) is Some ==> task_ok(deck, jobs[k]->0, now)
    &&& forall|j: int, k: int|
        #![trigger jobs[j], jobs[k]]
        0 <= j < jobs.len() && 0 <= k < jobs.len() && j != k && jobs[j] is Some && jobs[k] is Some ==> pair_ok(
            jobs[j]->0,
            jobs[k]->0,
        )
}

/// The lane a take is handed on to stays EMPTY until then.
pub open spec fn hand_ok(deck: Deck) -> bool {
    deck.rec matches Some(r) ==> (r.handoff matches Some(n) ==> n < TRACK_COUNT && deck.lanes@[n as int].state
        == LaneState::Empty)
}

/// A job works on lane `i` or copies from it.
pub open spec fn on_lane(job: Job, i: int) -> bool {
    job.lane == i || job.kind is LaneCopy && job.kind->from == i
}

/// No job works on lane `i` or copies from it.
#[verifier::opaque]
pub open spec fn free_of(jobs: Seq<Option<Job>>, i: int) -> bool {
    forall|k: int| 0 <= k < jobs.len() && (#[trigger] jobs[k]) is Some ==> !on_lane(jobs[k]->0, i)
}

/// Lane `b` in place of `a`: the jobs on it find what they work on.
pub open spec fn keeps_place(a: Lane, b: Lane) -> bool {
    &&& b.live == a.live
    &&& b.spare == a.spare
    &&& b.period == a.period
    &&& a.switch_at is None ==> b.switch_at is None
    &&& a.state == LaneState::Stopped ==> b.state == LaneState::Stopped
    &&& b.state == LaneState::Playing ==> {
        ||| a.state == LaneState::Playing && b.audible == a.audible && b.switch_at == a.switch_at
        ||| a.state == LaneState::Playing && a.switch_at is Some && b.switch_at is None
        ||| a.state == LaneState::Overdubbing && b.switch_at is None && b.audible.buf == b.live
    }
}

/// Lane `b` in place of `a` suits the jobs on lane `i` and those that copy from it.
#[verifier::opaque]
pub open spec fn suits(jobs: Seq<Option<Job>>, a: Lane, b: Lane, i: int, now: Frame) -> bool {
    forall|k: int|
        0 <= k < jobs.len() && (#[trigger] jobs[k]) is Some ==> {
            let job = jobs[k]->0;
            &&& job.lane == i ==> {
                &&& b.is_committed() || b.state == LaneState::Overdubbing && job.kind is Copy
                &&& job.kind is Fill ==> b.period <= job.visit.modulus
                &&& job.done_at() <= now || keeps_place(a, b)
            }
            &&& job.kind is LaneCopy && job.kind->from == i ==> {
                &&& b.is_committed()
                &&& a.period <= b.period
                &&& job.done_at() <= now || b.live == a.live
            }
        }
}

/// An overdub goes on as it began, or no job is on its lane.
pub open spec fn same_dub(a: Option<Recorder>, b: Option<Recorder>, jobs: Seq<Option<Job>>) -> bool {
    b matches Some(r) ==> r.kind == Kind::Overdub ==> {
        ||| a is Some && a->0.kind == Kind::Overdub && a->0.lane == r.lane && a->0.start == r.start && a->0.align
            == r.align
        ||| free_of(jobs, r.lane as int)
    }
}

/// Lane `b` in place of `a` suits whatever jobs there may be: they keep their place, or there can be none.
pub open spec fn fits_in(a: Lane, b: Lane) -> bool {
    ||| a.state == LaneState::Empty
    ||| a.state == LaneState::Recording
    ||| {
        &&& keeps_place(a, b)
        &&& a.is_committed() ==> b.is_committed()
        &&& a.state == LaneState::Overdubbing ==> b.is_committed() || b.state == LaneState::Overdubbing
    }
}

/// The jobs on lane `i` are done.
#[verifier::opaque]
pub open spec fn rests(jobs: Seq<Option<Job>>, i: int, now: Frame) -> bool {
    forall|k: int|
        0 <= k < jobs.len() && (#[trigger] jobs[k]) is Some && jobs[k]->0.lane == i ==> jobs[k]->0.done_at() <= now
}

pub proof fn lemma_suits_free(jobs: Seq<Option<Job>>, a: Lane, b: Lane, i: int, now: Frame)
    requires
        free_of(jobs, i),
    ensures
        suits(jobs, a, b, i, now),
{
    reveal(free_of);
    reveal(suits);
    assert forall|k: int| 0 <= k < jobs.len() && (#[trigger] jobs[k]) is Some implies !on_lane(jobs[k]->0, i) by {
    }
}

/// A lane with a loop stays one, or an overdub becomes one.
pub proof fn lemma_suits_kept(deck: Deck, jobs: Seq<Option<Job>>, b: Lane, i: int, now: Frame)
    requires
        tasks_ok(deck, jobs, now),
        keeps_place(deck.lanes@[i], b),
        deck.lanes@[i].is_committed() ==> b.is_committed(),
        deck.lanes@[i].state == LaneState::Overdubbing ==> b.is_committed() || b.state == LaneState::Overdubbing,
    ensures
        suits(jobs, deck.lanes@[i], b, i, now),
{
    reveal(tasks_ok);
    reveal(suits);
    assert forall|k: int| 0 <= k < jobs.len() && (#[trigger] jobs[k]) is Some implies stands(
        deck,
        jobs[k]->0,
        now,
    ) by {
        assert(task_ok(deck, jobs[k]->0, now));
    }
}

pub proof fn lemma_suits(deck: Deck, jobs: Seq<Option<Job>>, b: Lane, i: int, now: Frame)
    requires
        tasks_ok(deck, jobs, now),
        fits_in(deck.lanes@[i], b),
    ensures
        suits(jobs, deck.lanes@[i], b, i, now),
{
    let a = deck.lanes@[i];
    if a.state == LaneState::Empty || a.state == LaneState::Recording {
        lemma_free(deck, jobs, now, i);
        lemma_suits_free(jobs, a, b, i, now);
    } else {
        lemma_suits_kept(deck, jobs, b, i, now);
    }
}

/// A lane whose jobs are done may play or rest as it likes, on the loop that it has.
pub proof fn lemma_suits_rested(deck: Deck, jobs: Seq<Option<Job>>, b: Lane, i: int, now: Frame)
    requires
        tasks_ok(deck, jobs, now),
        rests(jobs, i, now),
        deck.lanes@[i].is_committed(),
        b.is_committed(),
        b.live == deck.lanes@[i].live,
        b.period == deck.lanes@[i].period,
    ensures
        suits(jobs, deck.lanes@[i], b, i, now),
{
    reveal(tasks_ok);
    reveal(rests);
    reveal(suits);
    assert forall|k: int| 0 <= k < jobs.len() && (#[trigger] jobs[k]) is Some implies stands(
        deck,
        jobs[k]->0,
        now,
    ) by {
        assert(task_ok(deck, jobs[k]->0, now));
    }
}

pub proof fn lemma_rests_free(jobs: Seq<Option<Job>>, i: int, now: Frame)
    requires
        free_of(jobs, i),
    ensures
        rests(jobs, i, now),
{
    reveal(free_of);
    reveal(rests);
    assert forall|k: int| 0 <= k < jobs.len() && (#[trigger] jobs[k]) is Some implies !on_lane(jobs[k]->0, i) by {
    }
}

/// A job that is done has no company on its lane that is not.
pub proof fn lemma_rests_due(deck: Deck, jobs: Seq<Option<Job>>, k: int, now: Frame)
    requires
        tasks_ok(deck, jobs, now),
        0 <= k < jobs.len(),
        jobs[k] is Some,
        jobs[k]->0.done_at() <= now,
    ensures
        rests(jobs, jobs[k]->0.lane as int, now),
        stands(deck, jobs[k]->0, now),
{
    reveal(tasks_ok);
    reveal(rests);
    assert(task_ok(deck, jobs[k]->0, now));
    assert forall|j: int|
        0 <= j < jobs.len() && (#[trigger] jobs[j]) is Some && jobs[j]->0.lane == jobs[k]->0.lane implies jobs[j]->0.done_at()
        <= now by {
        if j != k {
            assert(pair_ok(jobs[j]->0, jobs[k]->0));
        }
    }
}

/// A lane that was filled holds the longer loop.
pub proof fn lemma_suits_filled(deck: Deck, jobs: Seq<Option<Job>>, k: int, now: Frame)
    requires
        tasks_ok(deck, jobs, now),
        0 <= k < jobs.len(),
        jobs[k] is Some,
        jobs[k]->0.done_at() <= now,
        jobs[k]->0.kind is Fill,
    ensures
        ({
            let a = deck.lanes@[jobs[k]->0.lane as int];
            let b = Lane { period: jobs[k]->0.visit.modulus, ..a };
            suits(jobs, a, b, jobs[k]->0.lane as int, now)
        }),
{
    lemma_rests_due(deck, jobs, k, now);
    reveal(tasks_ok);
    reveal(rests);
    reveal(suits);
    assert forall|j: int| 0 <= j < jobs.len() && (#[trigger] jobs[j]) is Some implies stands(deck, jobs[j]->0, now)
        && (j != k ==> pair_ok(jobs[j]->0, jobs[k]->0)) by {
        assert(task_ok(deck, jobs[j]->0, now));
        if j != k {
            assert(pair_ok(jobs[j]->0, jobs[k]->0));
        }
    }
}

/// No job is on a lane without a loop.
pub proof fn lemma_free(deck: Deck, jobs: Seq<Option<Job>>, now: Frame, i: int)
    requires
        tasks_ok(deck, jobs, now),
        !deck.lanes@[i].is_committed(),
        deck.lanes@[i].state != LaneState::Overdubbing,
    ensures
        free_of(jobs, i),
{
    reveal(tasks_ok);
    reveal(free_of);
    assert forall|k: int| 0 <= k < jobs.len() && (#[trigger] jobs[k]) is Some implies !on_lane(jobs[k]->0, i) by {
        assert(task_ok(deck, jobs[k]->0, now));
    }
}

/// Without the jobs of a lane that overdubs there is none on it.
pub proof fn lemma_free_without(deck: Deck, jobs: Seq<Option<Job>>, now: Frame, i: int)
    requires
        tasks_ok(deck, jobs, now),
        !deck.lanes@[i].is_committed(),
    ensures
        free_of(deck::without_lane(jobs, i), i),
{
    reveal(tasks_ok);
    reveal(free_of);
    let fewer = deck::without_lane(jobs, i);
    assert forall|k: int| 0 <= k < fewer.len() && (#[trigger] fewer[k]) is Some implies !on_lane(fewer[k]->0, i) by {
        assert(fewer[k] == jobs[k]);
        assert(task_ok(deck, jobs[k]->0, now));
    }
}

/// A lane whose jobs a command would have waited for has none.
pub proof fn lemma_free_undelayed(jobs: Seq<Option<Job>>, i: int, needs_free: bool)
    requires
        0 <= i < TRACK_COUNT,
        deck::delay_until(jobs, Some(i as usize), needs_free) is None,
    ensures
        free_of(jobs, i),
{
    reveal(free_of);
    keeps::lemma_none_delays(jobs, Some(i as usize), needs_free);
}

/// Where a command would have waited for any job there is none.
pub proof fn lemma_none_at_all(jobs: Seq<Option<Job>>)
    requires
        deck::delay_until(jobs, None, false) is None,
    ensures
        forall|k: int| 0 <= k < jobs.len() ==> (#[trigger] jobs[k]) is None,
        forall|i: int| #[trigger] free_of(jobs, i),
{
    reveal(free_of);
    keeps::lemma_none_delays(jobs, None, false);
}

/// Without a loop there is no job.
pub proof fn lemma_none_when_blank(deck: Deck, jobs: Seq<Option<Job>>, now: Frame)
    requires
        tasks_ok(deck, jobs, now),
        deck::jobs_ok(deck, jobs),
        forall|k: int|
            0 <= k < TRACK_COUNT ==> !(#[trigger] deck.lanes@[k]).is_committed() && deck.lanes@[k].state
                != LaneState::Overdubbing,
    ensures
        forall|k: int| 0 <= k < jobs.len() ==> (#[trigger] jobs[k]) is None,
{
    reveal(tasks_ok);
    reveal(deck::jobs_ok);
    assert forall|k: int| 0 <= k < jobs.len() implies (#[trigger] jobs[k]) is None by {
        if jobs[k] is Some {
            assert(task_ok(deck, jobs[k]->0, now));
            assert(!deck.lanes@[jobs[k]->0.lane as int].is_committed());
        }
    }
}

/// No job is on a lane while none works on it and none copies from it.
pub proof fn lemma_not_busy(jobs: Seq<Option<Job>>, i: int)
    requires
        free_of(jobs, i),
    ensures
        !deck::busy(jobs, i),
{
    reveal(free_of);
    if deck::busy(jobs, i) {
        let j = choose|j: int| 0 <= j < jobs.len() && (#[trigger] jobs[j]) is Some && jobs[j]->0.lane == i;
        assert(!on_lane(jobs[j]->0, i));
    }
}

pub proof fn lemma_tasks_none(deck: Deck, jobs: Seq<Option<Job>>, now: Frame)
    requires
        forall|k: int| 0 <= k < jobs.len() ==> (#[trigger] jobs[k]) is None,
    ensures
        tasks_ok(deck, jobs, now),
        forall|i: int| #[trigger] free_of(jobs, i),
{
    reveal(tasks_ok);
    reveal(free_of);
}

/// The head of a lane is on the same positions.
proof fn lemma_heard_same(a: Deck, b: Deck, i: int)
    requires
        b.anchor == a.anchor,
        b.master == a.master,
        b.lanes@[i].audible == a.lanes@[i].audible,
        b.lanes@[i].period == a.lanes@[i].period,
    ensures
        forall|f: int| #[trigger] b.heard(i, f) == a.heard(i, f),
{
}

/// Jobs ahead of a head are so of the same head.
pub proof fn lemma_ahead_same(a: Deck, b: Deck, i: int, visit: Visit, start: Frame, now: Frame)
    requires
        ahead(a, i, visit, start, now),
        forall|f: int| #[trigger] b.heard(i, f) == a.heard(i, f),
    ensures
        ahead(b, i, visit, start, now),
{
    assert forall|f: int| now <= f implies !(#[trigger] visits_late(b, i, visit, start, f)) by {
        assert(!visits_late(a, i, visit, start, f));
        assert(b.heard(i, f) == a.heard(i, f));
    }
}

/// One lane changed for another that suits its jobs.
pub proof fn lemma_tasks_lane(a: Deck, b: Deck, jobs: Seq<Option<Job>>, now: Frame, i: int)
    requires
        tasks_ok(a, jobs, now),
        deck::jobs_ok(a, jobs),
        a.pool_ok(),
        0 <= i < TRACK_COUNT,
        b.master == a.master,
        b.anchor == a.anchor,
        forall|k: int| 0 <= k < TRACK_COUNT && k != i ==> #[trigger] b.lanes@[k] == a.lanes@[k],
        suits(jobs, a.lanes@[i], b.lanes@[i], i, now),
        same_dub(a.rec, b.rec, jobs),
    ensures
        tasks_ok(b, jobs, now),
{
    reveal(tasks_ok);
    reveal(suits);
    reveal(free_of);
    reveal(deck::jobs_ok);
    reveal(Deck::pool_ok);
    assert(a.owner(i) != a.owner(i + 5));
    assert forall|k: int| 0 <= k < jobs.len() && (#[trigger] jobs[k]) is Some implies task_ok(b, jobs[k]->0, now) by {
        let job = jobs[k]->0;
        let n = job.lane as int;
        assert(task_ok(a, job, now));
        assert(job.wf(a.capacity as int));
        if n != i {
            assert(b.lanes@[n] == a.lanes@[n]);
        }
        if let JobKind::LaneCopy { from, .. } = job.kind {
            if from != i {
                assert(b.lanes@[from as int] == a.lanes@[from as int]);
            }
        }
        assert(stands(b, job, now));
        if job.done_at() > now {
            assert(holds_buffers(b, job));
            let (s, t) = (a.lanes@[n], b.lanes@[n]);
            if t.state == LaneState::Playing {
                if t.audible == s.audible && t.switch_at == s.switch_at && s.state == LaneState::Playing {
                    lemma_heard_same(a, b, n);
                    if ahead(a, n, job.visit, job.start, now) {
                        lemma_ahead_same(a, b, n, job.visit, job.start, now);
                    }
                } else if s.state == LaneState::Playing {
                    assert(job.kind is Fill && s.period <= job.visit.lo);
                } else {
                    assert(job.kind is Copy);
                    assert(a.lanes@[i].live == a.owner(i) && a.lanes@[i].spare == a.owner(i + 5));
                }
            }
            assert(spares_head(b, job, now));
        }
    }
}

/// The grid anchored anew while nothing plays or records.
pub proof fn lemma_tasks_idle(a: Deck, b: Deck, jobs: Seq<Option<Job>>, now: Frame)
    requires
        tasks_ok(a, jobs, now),
        deck::jobs_ok(a, jobs),
        b.lanes == a.lanes,
        b.rec is None,
        forall|k: int| 0 <= k < TRACK_COUNT ==> (#[trigger] a.lanes@[k]).state != LaneState::Playing,
    ensures
        tasks_ok(b, jobs, now),
{
    reveal(tasks_ok);
    reveal(deck::jobs_ok);
    assert forall|k: int| 0 <= k < jobs.len() && (#[trigger] jobs[k]) is Some implies task_ok(b, jobs[k]->0, now) by {
        let job = jobs[k]->0;
        assert(task_ok(a, job, now));
        assert(job.wf(a.capacity as int));
        assert(a.lanes@[job.lane as int].state != LaneState::Playing);
    }
}

/// A lane that keeps its loop keeps its head where it was on a grid whose master is whole old masters long and
/// whose anchor is whole old masters away.
pub proof fn lemma_heard_multiplied(a: Deck, b: Deck, j: int, n: int, away: int, f: int)
    requires
        a.master > 0,
        n >= 1,
        b.master == n * a.master,
        b.anchor == a.anchor + away * a.master,
        b.lanes@[j].audible == a.lanes@[j].audible,
        b.lanes@[j].period == a.lanes@[j].period,
        0 < a.lanes@[j].period <= a.master,
        a.master as int % a.lanes@[j].period as int == 0,
    ensures
        b.heard(j, f) == a.heard(j, f),
{
    let t = a.lanes@[j];
    let (m, p) = (a.master as int, t.period as int);
    let s = crate::looper::laws::lemma_same_phase(f, a.anchor as int, m, n, away);
    let pos = grid::pos_in_loop(f, a.anchor as int, m);
    vstd::arithmetic::div_mod::lemma_fundamental_div_mod(m, p);
    let c = m / p;
    if t.audible.reversed {
        assert(n * m - 1 - (m * s + pos) == p * (c * (n - 1 - s)) + (m - 1 - pos)) by (nonlinear_arith)
            requires
                m == p * c + 0,
        ;
        vstd::arithmetic::div_mod::lemma_mod_multiples_vanish(c * (n - 1 - s), m - 1 - pos, p);
    } else {
        assert(m * s + pos == p * (c * s) + pos) by (nonlinear_arith)
            requires
                m == p * c + 0,
        ;
        vstd::arithmetic::div_mod::lemma_mod_multiples_vanish(c * s, pos, p);
    }
}

/// A master whole old masters long.
pub proof fn lemma_tasks_multiplied(a: Deck, b: Deck, jobs: Seq<Option<Job>>, now: Frame, n: int, away: int)
    requires
        tasks_ok(a, jobs, now),
        deck::jobs_ok(a, jobs),
        a.lanes_ok(),
        a.rec is Some,
        a.rec->0.kind == Kind::Take,
        a.master > 0,
        n >= 1,
        b.master == n * a.master,
        b.anchor == a.anchor + away * a.master,
        b.lanes == a.lanes,
        b.rec == a.rec,
    ensures
        tasks_ok(b, jobs, now),
{
    reveal(tasks_ok);
    reveal(deck::jobs_ok);
    reveal(Deck::lanes_ok);
    assert forall|k: int| 0 <= k < jobs.len() && (#[trigger] jobs[k]) is Some implies task_ok(b, jobs[k]->0, now) by {
        let job = jobs[k]->0;
        let j = job.lane as int;
        assert(task_ok(a, job, now));
        assert(job.wf(a.capacity as int));
        assert(a.lanes@[j].ok(a.master, a.capacity));
        assert(b.lanes@[j] == a.lanes@[j]);
        if a.lanes@[j].state == LaneState::Playing && ahead(a, j, job.visit, job.start, now) {
            assert forall|f: int| #[trigger] b.heard(j, f) == a.heard(j, f) by {
                lemma_heard_multiplied(a, b, j, n, away, f);
            }
            lemma_ahead_same(a, b, j, job.visit, job.start, now);
        }
    }
}

/// Fewer jobs.
pub proof fn lemma_tasks_fewer(deck: Deck, jobs: Seq<Option<Job>>, fewer: Seq<Option<Job>>, now: Frame)
    requires
        tasks_ok(deck, jobs, now),
        fewer.len() == jobs.len(),
        forall|k: int| 0 <= k < jobs.len() ==> (#[trigger] fewer[k]) is None || fewer[k] == jobs[k],
    ensures
        tasks_ok(deck, fewer, now),
{
    reveal(tasks_ok);
    assert forall|k: int| 0 <= k < fewer.len() && (#[trigger] fewer[k]) is Some implies task_ok(
        deck,
        fewer[k]->0,
        now,
    ) by {
        assert(fewer[k] == jobs[k]);
    }
    assert forall|j: int, k: int|
        #![trigger fewer[j], fewer[k]]
        0 <= j < fewer.len() && 0 <= k < fewer.len() && j != k && fewer[j] is Some && fewer[k] is Some implies pair_ok(
        fewer[j]->0,
        fewer[k]->0,
    ) by {
        assert(fewer[j] == jobs[j] && fewer[k] == jobs[k]);
    }
}

/// A new job gets along with those of the table.
#[verifier::opaque]
pub open spec fn joins(jobs: Seq<Option<Job>>, job: Job) -> bool {
    forall|k: int|
        0 <= k < jobs.len() && (#[trigger] jobs[k]) is Some ==> pair_ok(jobs[k]->0, job) && pair_ok(job, jobs[k]->0)
}

/// One more job.
pub proof fn lemma_tasks_more(deck: Deck, jobs: Seq<Option<Job>>, job: Job, now: Frame)
    requires
        tasks_ok(deck, jobs, now),
        task_ok(deck, job, now),
        joins(jobs, job),
    ensures
        tasks_ok(deck, deck::with_job(jobs, job), now),
{
    reveal(tasks_ok);
    reveal(joins);
    keeps::lemma_first_free(jobs);
    let more = deck::with_job(jobs, job);
    let n = deck::first_free(jobs);
    assert forall|k: int| 0 <= k < more.len() && k != n implies k < jobs.len() && #[trigger] more[k] == jobs[k] by {
    }
    assert(more[n] == Some(job));
    assert forall|k: int| 0 <= k < more.len() && (#[trigger] more[k]) is Some implies task_ok(
        deck,
        more[k]->0,
        now,
    ) by {
        if k != n {
            assert(more[k] == jobs[k]);
        }
    }
    assert forall|j: int, k: int|
        #![trigger more[j], more[k]]
        0 <= j < more.len() && 0 <= k < more.len() && j != k && more[j] is Some && more[k] is Some implies pair_ok(
        more[j]->0,
        more[k]->0,
    ) by {
        if j != n {
            assert(more[j] == jobs[j]);
        }
        if k != n {
            assert(more[k] == jobs[k]);
        }
    }
}

/// A job on a lane that none is on gets along, where none is on what it copies from either.
pub proof fn lemma_joins(jobs: Seq<Option<Job>>, job: Job)
    requires
        free_of(jobs, job.lane as int),
        job.kind is LaneCopy ==> free_of(jobs, job.kind->from as int),
    ensures
        joins(jobs, job),
{
    reveal(free_of);
    reveal(joins);
    assert forall|k: int| 0 <= k < jobs.len() && (#[trigger] jobs[k]) is Some implies pair_ok(jobs[k]->0, job)
        && pair_ok(job, jobs[k]->0) by {
        assert(!on_lane(jobs[k]->0, job.lane as int));
        if job.kind is LaneCopy {
            assert(!on_lane(jobs[k]->0, job.kind->from as int));
        }
    }
}

/// A job that repeats a loop past it gets along with whatever copies from the lane.
pub proof fn lemma_joins_repeat(deck: Deck, jobs: Seq<Option<Job>>, job: Job, now: Frame)
    requires
        tasks_ok(deck, jobs, now),
        job.kind is Fill,
        deck.lanes@[job.lane as int].period <= job.visit.lo,
        forall|k: int|
            0 <= k < jobs.len() && (#[trigger] jobs[k]) is Some && jobs[k]->0.lane == job.lane ==> {
                &&& jobs[k]->0.kind is Fill
                &&& jobs[k]->0.writes() != job.writes()
                &&& jobs[k]->0.visit == job.visit
                &&& jobs[k]->0.start == job.start
            },
    ensures
        joins(jobs, job),
{
    reveal(tasks_ok);
    reveal(joins);
    assert forall|k: int| 0 <= k < jobs.len() && (#[trigger] jobs[k]) is Some implies pair_ok(jobs[k]->0, job)
        && pair_ok(job, jobs[k]->0) by {
        assert(task_ok(deck, jobs[k]->0, now));
    }
}

/// Time passing keeps them.
pub proof fn lemma_tasks_later(deck: Deck, jobs: Seq<Option<Job>>, now: Frame, later: Frame)
    requires
        tasks_ok(deck, jobs, now),
        now <= later,
    ensures
        tasks_ok(deck, jobs, later),
{
    reveal(tasks_ok);
    assert forall|k: int| 0 <= k < jobs.len() && (#[trigger] jobs[k]) is Some implies task_ok(
        deck,
        jobs[k]->0,
        later,
    ) by {
        let job = jobs[k]->0;
        assert(task_ok(deck, job, now));
        if ahead(deck, job.lane as int, job.visit, job.start, now) {
            assert forall|f: int| later <= f implies !(#[trigger] visits_late(
                deck,
                job.lane as int,
                job.visit,
                job.start,
                f,
            )) by {
            }
        }
    }
}

/// Jobs further on their way.
pub proof fn lemma_tasks_advanced(deck: Deck, jobs: Seq<Option<Job>>, after: Seq<Option<Job>>, now: Frame)
    requires
        tasks_ok(deck, jobs, now),
        after.len() == jobs.len(),
        forall|k: int|
            0 <= k < jobs.len() ==> (#[trigger] after[k]) == jobs[k] || after[k] is Some && jobs[k] is Some && after[k]->0
                == (Job { progress: after[k]->0.progress, ..jobs[k]->0 }),
    ensures
        tasks_ok(deck, after, now),
{
    reveal(tasks_ok);
    assert forall|k: int| 0 <= k < after.len() && (#[trigger] after[k]) is Some implies task_ok(
        deck,
        after[k]->0,
        now,
    ) by {
        assert(task_ok(deck, jobs[k]->0, now));
    }
    assert forall|j: int, k: int|
        #![trigger after[j], after[k]]
        0 <= j < after.len() && 0 <= k < after.len() && j != k && after[j] is Some && after[k] is Some implies pair_ok(
        after[j]->0,
        after[k]->0,
    ) by {
        assert(pair_ok(jobs[j]->0, jobs[k]->0));
    }
}

/// A job that starts where a forward head is, and visits what the head may come to in the head's order, stays
/// ahead of it.
pub proof fn lemma_starts_ahead(deck: Deck, job: Job, reader: int)
    requires
        job.visit.wf(),
        job.visit.span <= job.visit.modulus,
        deck::kept(job.start as int),
        job.lane < TRACK_COUNT,
        deck.master == job.visit.modulus,
        deck.lanes@[job.lane as int].period == deck.master,
        !deck.lanes@[job.lane as int].audible.reversed,
        reader == grid::pos_in_loop(job.start as int, deck.anchor as int, deck.master as int),
        ({
            let into = (reader - job.visit.lo) % (job.visit.modulus as int);
            job.visit.off == (if into < job.visit.span {
                into
            } else {
                0
            })
        }),
    ensures
        ahead(deck, job.lane as int, job.visit, job.start, job.start),
{
    let (v, m) = (job.visit, job.visit.modulus as int);
    let lane = job.lane as int;
    let x = job.start - deck.anchor;
    vstd::arithmetic::div_mod::lemma_mod_bound(x, m);
    assert forall|f: int| job.start <= f implies !(#[trigger] visits_late(deck, lane, v, job.start, f)) by {
        let n = f - job.start;
        let p = deck.heard(lane, f);
        assert(p == (reader + n) % m) by {
            vstd::arithmetic::div_mod::lemma_mod_bound(f - deck.anchor, m);
            vstd::arithmetic::div_mod::lemma_small_mod(((f - deck.anchor) % m) as nat, m as nat);
            vstd::arithmetic::div_mod::lemma_add_mod_noop_right(n, x, m);
            assert(x + n == f - deck.anchor);
        }
        let from = owed_by(v, job.start, f + 1);
        if visits_late(deck, lane, v, job.start, f) {
            let s = choose|s: int| from <= s < v.span && #[trigger] v.pos(s) == p;
            let d = (v.off + s) % (v.span as int);
            vstd::arithmetic::div_mod::lemma_mod_bound(v.off + s, v.span as int);
            assert(n < LOOP_LIMIT);
            crate::looper::laws::law_a_job_stays_ahead_of_the_head(job, reader, n, d);
            let owed = job.owed((job.start + n + 1) as Frame);
            assert(owed == from);
            let t = choose|t: int| 0 <= t < owed && #[trigger] v.pos(t) == p;
            v.law_no_position_is_visited_twice(s, t);
        }
    }
}

} // verus!
