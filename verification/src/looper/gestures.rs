//! What each gesture on a lane is for, in terms of what the lanes held before and hold after.

use vstd::prelude::*;

use crate::api::{Command, LaneState, TRACK_COUNT};
use crate::deck;
use crate::deck::{Applied, Deck, Job, Lane, World};
use crate::grid;
use crate::grid::Frame;
use crate::looper::changes::{beats_with, lemma_bars_of};
use crate::tasks;

verus! {

/// No job works on a lane or copies from it.
pub open spec fn at_rest(jobs: Seq<Option<Job>>, i: int) -> bool {
    forall|k: int|
        0 <= k < jobs.len() && (#[trigger] jobs[k]) is Some ==> jobs[k]->0.lane != i && !(jobs[k]->0.kind is LaneCopy
            && jobs[k]->0.kind->from == i)
}

/// Where no job is on a lane, nothing there waits.
pub proof fn lemma_at_rest(jobs: Seq<Option<Job>>, i: int, needs_free: bool)
    requires
        at_rest(jobs, i),
        0 <= i < TRACK_COUNT,
        needs_free ==> forall|k: int|
            0 <= k < jobs.len() && (#[trigger] jobs[k]) is Some ==> !(jobs[k]->0.kind is Restore),
    ensures
        deck::delay_until(jobs, Some(i as usize), needs_free) is None,
        tasks::free_of(jobs, i),
    decreases jobs.len(),
{
    reveal(tasks::free_of);
    if jobs.len() > 0 {
        let before = jobs.drop_last();
        assert forall|k: int| 0 <= k < before.len() && (#[trigger] before[k]) is Some implies before[k]->0.lane != i
            && !(before[k]->0.kind is LaneCopy && before[k]->0.kind->from == i) && (needs_free ==> !(before[k]->0.kind is Restore)) by {
            assert(before[k] == jobs[k]);
        }
        lemma_at_rest(before, i, needs_free);
        assert(jobs.last() == jobs[jobs.len() - 1]);
    }
}

/// The loop of a lane: where it is, how long, which way round, and how it is mixed.
pub open spec fn same_loop(a: Lane, b: Lane) -> bool {
    &&& b.live == a.live
    &&& b.spare == a.spare
    &&& b.length == a.length
    &&& b.period == a.period
    &&& b.reversed == a.reversed
    &&& b.undo_valid == a.undo_valid
    &&& b.spare_reversed == a.spare_reversed
    &&& b.volume == a.volume
    &&& b.muted == a.muted
}

/// Every lane but one is as it was.
pub open spec fn others_same(a: World, b: World, i: int) -> bool {
    forall|k: int| 0 <= k < TRACK_COUNT && k != i ==> #[trigger] b.deck.lanes@[k] == a.deck.lanes@[k]
}

/// The grid, the recorder, the jobs and the settings are as they were.
pub open spec fn same_transport(a: World, b: World) -> bool {
    &&& b.deck == (Deck { lanes: b.deck.lanes, ..a.deck })
    &&& b.jobs == a.jobs
    &&& b.clock == a.clock
}

// ── PLAY/STOP ──────────────────────────────────────────────────────────────────────────────────────

/// PLAY/STOP silences a lane that plays: without the loop-end stop on the frame of the press, its loop kept;
/// with it the lane plays on, until the first frame from the press on where the loop starts over.
pub proof fn law_play_stop_ends_a_playing_lane(w: World, now: Frame, align: Frame, i: int)
    requires
        w.inv(now),
        0 <= i < TRACK_COUNT,
        w.lane(i).state == LaneState::Playing,
        w.lane(i).stop_at is None,
    ensures
        ({
            let after = w.commanded(now, align, Command::PlayStop(i as u8));
            let (anchor, master) = (w.deck.anchor as int, w.deck.master as int);
            &&& w.command_answer(now, Command::PlayStop(i as u8)) == Applied::Done
            &&& same_loop(w.lane(i), after.lane(i))
            &&& others_same(w, after, i)
            &&& same_transport(w, after)
            &&& !w.deck.loop_end_stop ==> {
                &&& after.lane(i).state == LaneState::Stopped
                &&& after.lane(i).stop_at is None
                &&& after.lane(i).switch_at is None
                &&& after.lane(i).audible.buf == w.lane(i).live
                &&& after.lane(i).audible.reversed == w.lane(i).reversed
            }
            &&& w.deck.loop_end_stop ==> {
                &&& after.lane(i).state == LaneState::Playing
                &&& after.lane(i).audible == w.lane(i).audible
                &&& after.lane(i).switch_at == w.lane(i).switch_at
                &&& after.lane(i).stop_at matches Some(at) && {
                    &&& now <= at < now + master
                    &&& (at - anchor) % master == 0
                    &&& forall|g: int| now <= g < at ==> #[trigger] ((g - anchor) % master) != 0
                }
            }
        }),
{
    reveal(World::lane_commanded);
    reveal(World::stopped);
    w.lemma_lane(now, i);
    w.lemma_boundary(now);
    let (anchor, master) = (w.deck.anchor as int, w.deck.master as int);
    grid::law_next_boundary_is_the_first_loop_start(anchor, master, now as int);
    let at = w.boundary(now);
    assert forall|g: int| now <= g < at implies #[trigger] ((g - anchor) % master) != 0 by {
        lemma_one_start(anchor, master, g, at as int);
    }
}

/// Two loop starts are a loop apart at least.
pub proof fn lemma_one_start(anchor: int, master: int, g: int, at: int)
    requires
        master > 0,
        at - master < g < at,
        (at - anchor) % master == 0,
    ensures
        (g - anchor) % master != 0,
{
    if (g - anchor) % master == 0 {
        crate::jobs::lemma_same_residue(g - anchor, at - anchor, master);
    }
}

/// A loop-end stop happens on its frame, not before: up to it the lane plays, from it on it is STOPPED, its loop
/// kept.
pub proof fn law_a_loop_end_stop_lands_on_its_frame(w: World, now: Frame, i: int)
    requires
        w.inv(now),
        0 <= i < TRACK_COUNT,
        w.lane(i).state == LaneState::Playing,
        w.lane(i).stop_at is Some,
    ensures
        ({
            let after = w.lane_due(now, i);
            &&& same_loop(w.lane(i), after.lane(i))
            &&& others_same(w, after, i)
            &&& now < w.lane(i).stop_at->0 ==> after.lane(i).state == LaneState::Playing && after.lane(i).stop_at
                == w.lane(i).stop_at
            &&& w.lane(i).stop_at->0 <= now ==> after.lane(i).state == LaneState::Stopped && after.lane(i).stop_at is None
        }),
{
    reveal(World::lane_due);
    reveal(World::stopped);
    w.lemma_lane(now, i);
}

/// A second press, while the loop-end stop is pending, silences at once.
pub proof fn law_a_second_press_silences_now(w: World, now: Frame, align: Frame, i: int)
    requires
        w.inv(now),
        0 <= i < TRACK_COUNT,
        w.lane(i).state == LaneState::Playing,
        w.lane(i).stop_at is Some,
    ensures
        ({
            let after = w.commanded(now, align, Command::PlayStop(i as u8));
            &&& w.command_answer(now, Command::PlayStop(i as u8)) == Applied::Done
            &&& after.lane(i).state == LaneState::Stopped
            &&& after.lane(i).stop_at is None
            &&& same_loop(w.lane(i), after.lane(i))
            &&& others_same(w, after, i)
            &&& same_transport(w, after)
        }),
{
    reveal(World::lane_commanded);
    reveal(World::stopped);
    w.lemma_lane(now, i);
}

/// PLAY/STOP on a STOPPED lane plays it: where nothing plays or records it starts from the top, on the frame of
/// the press, else it joins the loops that run. A loop in work makes it wait.
pub proof fn law_play_stop_resumes_a_stopped_lane(w: World, now: Frame, align: Frame, i: int)
    requires
        w.inv(now),
        0 <= i < TRACK_COUNT,
        w.lane(i).state == LaneState::Stopped,
        w.lane(i).stop_at is None,
        at_rest(w.jobs, i),
    ensures
        ({
            let after = w.commanded(now, align, Command::PlayStop(i as u8));
            let idle = w.deck.rec is None && forall|k: int|
                0 <= k < TRACK_COUNT ==> (#[trigger] w.deck.lanes@[k]).state != LaneState::Playing;
            &&& w.command_answer(now, Command::PlayStop(i as u8)) == Applied::Done
            &&& after.lane(i).state == LaneState::Playing
            &&& after.lane(i).audible.buf == w.lane(i).live
            &&& after.lane(i).audible.reversed == w.lane(i).reversed
            &&& after.lane(i).switch_at is None
            &&& same_loop(w.lane(i), after.lane(i))
            &&& others_same(w, after, i)
            &&& after.deck.master == w.deck.master
            &&& after.deck.rec == w.deck.rec
            &&& after.jobs == w.jobs
            &&& idle ==> after.deck.anchor == now
            &&& forall|bars: int|
                idle && bars >= 1 && w.deck.master == #[trigger] (bars * w.fpb()) ==> beats_with(
                    after.clock,
                    now as int,
                    w.deck.master as int,
                    bars,
                    now,
                )
            &&& !idle ==> after.deck.anchor == w.deck.anchor && after.clock == w.clock
        }),
{
    reveal(World::lane_commanded);
    reveal(World::resumed);
    reveal(World::restarted_if_idle);
    reveal(Deck::has_playing);
    w.lemma_lane(now, i);
    lemma_at_rest(w.jobs, i, false);
    grid::lemma_bar_bounds(w.clock.bpm as int, w.deck.sample_rate as int);
    assert forall|bars: int| bars >= 1 && w.deck.master == #[trigger] (bars * w.fpb()) implies grid::max_int(
        w.deck.master as int / w.fpb(),
        1,
    ) == bars by {
        lemma_bars_of(w.deck.master as int, w.fpb(), bars);
    }
}

/// A lane that starts from the top plays its loop's first frame, forwards or backwards.
pub proof fn law_a_restart_is_heard_from_the_first_frame(w: World, now: Frame, align: Frame, i: int, n: int)
    requires
        w.inv(now),
        0 <= i < TRACK_COUNT,
        w.lane(i).state == LaneState::Stopped,
        w.lane(i).stop_at is None,
        at_rest(w.jobs, i),
        w.deck.rec is None,
        forall|k: int| 0 <= k < TRACK_COUNT ==> (#[trigger] w.deck.lanes@[k]).state != LaneState::Playing,
        0 <= n < w.deck.master,
    ensures
        ({
            let after = w.commanded(now, align, Command::PlayStop(i as u8));
            after.deck.heard(i, now + n) == (if w.lane(i).reversed {
                w.deck.master - 1 - n
            } else {
                n
            })
        }),
{
    law_play_stop_resumes_a_stopped_lane(w, now, align, i);
    w.lemma_lane(now, i);
    crate::looper::laws::lemma_whole_at_rest(w, now, i);
    vstd::arithmetic::div_mod::lemma_small_mod(n as nat, w.deck.master as nat);
    vstd::arithmetic::div_mod::lemma_small_mod((w.deck.master - 1 - n) as nat, w.deck.master as nat);
}

/// PLAY/STOP on an EMPTY lane does nothing.
pub proof fn law_play_stop_on_an_empty_lane_does_nothing(w: World, now: Frame, align: Frame, i: int)
    requires
        0 <= i < TRACK_COUNT,
        w.lane(i).state == LaneState::Empty,
    ensures
        w.commanded(now, align, Command::PlayStop(i as u8)) == w,
        w.command_answer(now, Command::PlayStop(i as u8)) == Applied::Done,
{
    reveal(World::lane_commanded);
}

// ── COPY ───────────────────────────────────────────────────────────────────────────────────────────

/// Position `p` of a loop of `len` frames, counted in the order it plays: from its end where it is reversed.
pub open spec fn turned(reversed: bool, p: int, len: int) -> int {
    if reversed {
        len - 1 - p
    } else {
        p
    }
}

/// Lane `j` is free for a copy: EMPTY, with no capture on it or about to be handed to it.
pub open spec fn vacant(w: World, j: int) -> bool {
    &&& 0 <= j < TRACK_COUNT
    &&& w.deck.lanes@[j].state == LaneState::Empty
    &&& w.deck.rec matches Some(r) ==> r.lane != j && r.handoff != Some(j as usize)
}

proof fn lemma_vacant(w: World, k: int, j: int)
    requires
        0 <= k <= j,
        vacant(w, j),
        forall|x: int| k <= x < j ==> !#[trigger] vacant(w, x),
    ensures
        w.first_target(k) == Some(j),
    decreases j - k,
{
    if k < j {
        assert(!vacant(w, k));
        lemma_vacant(w, k + 1, j);
    }
}

/// A job put into the table stands in a slot that was free, and nothing else moves.
pub proof fn lemma_job_slot(jobs: Seq<Option<Job>>, job: Job) -> (k: int)
    ensures
        0 <= k < deck::with_job(jobs, job).len(),
        deck::with_job(jobs, job)[k] == Some(job),
        k < jobs.len() ==> jobs[k] is None,
        jobs.len() <= deck::with_job(jobs, job).len() <= jobs.len() + 1,
        forall|x: int|
            0 <= x < deck::with_job(jobs, job).len() && x != k ==> x < jobs.len() && #[trigger] deck::with_job(
                jobs,
                job,
            )[x] == jobs[x],
{
    crate::keeps::lemma_first_free(jobs);
    deck::first_free(jobs)
}

/// ... nor does any job that was there.
pub proof fn lemma_job_keeps(jobs: Seq<Option<Job>>, job: Job, x: int)
    requires
        0 <= x < jobs.len(),
        jobs[x] is Some,
    ensures
        x < deck::with_job(jobs, job).len(),
        deck::with_job(jobs, job)[x] == jobs[x],
{
    crate::keeps::lemma_first_free(jobs);
}

/// COPY takes the first free lane: it gets the source's volume, mute and effects, and is STOPPED while its loop
/// is copied. What is copied then plays sample for sample as the source did at the press, forwards or
/// backwards, on the same grid. Nothing else changes.
pub proof fn law_a_copy_plays_as_its_source(
    w: World,
    now: Frame,
    align: Frame,
    i: int,
    j: int,
    pcm: Seq<Seq<crate::float::Single>>,
    p: int,
    f: int,
) -> (k: int)
    requires
        w.inv(now),
        0 <= i < TRACK_COUNT,
        w.lane(i).is_committed(),
        at_rest(w.jobs, i),
        vacant(w, j),
        forall|x: int| 0 <= x < j ==> !#[trigger] vacant(w, x),
        pcm.len() == deck::BUFFER_COUNT,
        forall|b: int| 0 <= b < deck::BUFFER_COUNT ==> (#[trigger] pcm[b]).len() == w.deck.capacity,
        0 <= p < w.deck.master,
    ensures
        ({
            let after = w.commanded(now, align, Command::Copy(i as u8));
            let job = after.jobs[k]->0;
            let len = w.deck.master as int;
            let copied = job.moved(pcm, 0, job.visit.span as int);
            let (from, to) = (w.lane(i), after.lane(j));
            &&& w.command_answer(now, Command::Copy(i as u8)) == Applied::Done
            &&& 0 <= k < after.jobs.len()
            &&& after.jobs[k] is Some
            &&& job.lane == j
            &&& job.start == now
            &&& job.progress == 0
            &&& to.state == LaneState::Stopped
            &&& to.length == len
            &&& to.period == len
            &&& to.volume == from.volume
            &&& to.muted == from.muted
            &&& to.live == w.lane(j).live
            &&& copied[to.live as int][turned(to.reversed, p, len)] == pcm[from.live as int][turned(from.reversed, p, len)]
            &&& forall|b: int| 0 <= b < deck::BUFFER_COUNT && b != to.live ==> #[trigger] copied[b] == pcm[b]
            &&& to.audible.buf == to.live
            &&& from.audible.reversed == from.reversed ==> after.deck.heard(j, f) == w.deck.heard(i, f)
            &&& after.fx == w.fx.push(deck::FxAction::Copy { from: i as u8, to: j as u8 })
            &&& others_same(w, after, j)
            &&& after.deck == (Deck { lanes: after.deck.lanes, ..w.deck })
            &&& after.clock == w.clock
            &&& after.said == w.said
        }),
{
    reveal(World::lane_commanded);
    w.lemma_lane(now, i);
    w.lemma_lane(now, j);
    lemma_at_rest(w.jobs, i, false);
    lemma_vacant(w, 0, j);
    crate::looper::laws::lemma_whole_at_rest(w, now, i);
    w.lemma_copied(now, i);
    let len = w.deck.master;
    let after = w.copied(now, i);
    let kind = deck::JobKind::LaneCopy {
        src: w.lane(i).live,
        dst: w.lane(j).live,
        from: i as usize,
        to: j as usize,
        resume: w.lane(i).state == LaneState::Playing && w.lane(i).stop_at is None,
    };
    let job = Job { kind, lane: j as usize, visit: deck::Visit { lo: 0, span: len, off: 0, modulus: len }, start: now, progress: 0 };
    let k = lemma_job_slot(w.jobs, job);
    assert(after.jobs == deck::with_job(w.jobs, job));
    after.lemma_job_known(now, k);
    let q = turned(w.lane(i).reversed, p, len as int);
    job.law_a_whole_job_moves_its_span(pcm, q, w.deck.capacity as int);
    vstd::arithmetic::div_mod::lemma_small_mod(q as nat, len as nat);
    k
}

/// COPY of a lane that has no loop, or with no lane free for it, does nothing.
pub proof fn law_a_copy_without_a_loop_or_a_place_does_nothing(w: World, now: Frame, align: Frame, i: int)
    requires
        0 <= i < TRACK_COUNT,
        w.lane(i).state == LaneState::Empty || w.lane(i).state == LaneState::Recording || w.lane(i).state
            == LaneState::Overdubbing || forall|j: int| !#[trigger] vacant(w, j),
    ensures
        w.commanded(now, align, Command::Copy(i as u8)) == w,
        w.command_answer(now, Command::Copy(i as u8)) == Applied::Done,
{
    reveal(World::lane_commanded);
    if forall|j: int| !#[trigger] vacant(w, j) {
        lemma_none_vacant(w, 0);
    }
}

proof fn lemma_none_vacant(w: World, k: int)
    requires
        0 <= k <= TRACK_COUNT,
        forall|j: int| !#[trigger] vacant(w, j),
    ensures
        w.first_target(k) is None,
    decreases TRACK_COUNT - k,
{
    if k < TRACK_COUNT {
        assert(!vacant(w, k));
        lemma_none_vacant(w, k + 1);
    }
}

/// A copy that is done is announced, and its lane plays if the source played at the press with no stop pending;
/// else it stays STOPPED.
pub proof fn law_a_copy_done_plays_as_its_source_played(
    w: World,
    now: Frame,
    align: Frame,
    i: int,
    j: int,
    later: World,
    at: Frame,
    k: int,
)
    requires
        w.inv(now),
        0 <= i < TRACK_COUNT,
        w.lane(i).is_committed(),
        at_rest(w.jobs, i),
        vacant(w, j),
        forall|x: int| 0 <= x < j ==> !#[trigger] vacant(w, x),
        later.inv(at),
        0 <= k < later.jobs.len(),
        later.jobs[k] is Some,
        later.jobs[k]->0.lane == j,
        exists|c: int|
            0 <= c < w.commanded(now, align, Command::Copy(i as u8)).jobs.len() && ({
                let job = #[trigger] w.commanded(now, align, Command::Copy(i as u8)).jobs[c];
                job is Some && job->0.lane == j && job->0.kind == later.jobs[k]->0.kind && job->0.kind is LaneCopy
            }),
        later.lane(j).state == LaneState::Stopped,
        later.lane(j).period == later.lane(j).length,
    ensures
        ({
            let after = later.job_due(at, k);
            let plays = w.lane(i).state == LaneState::Playing && w.lane(i).stop_at is None;
            &&& after.jobs == later.jobs.update(k, None)
            &&& after.said == later.said.push(crate::api::Event::Copied { frame: at, from: i as u8, to: j as u8 })
            &&& same_loop(later.lane(j), after.lane(j))
            &&& others_same(later, after, j)
            &&& after.lane(j).state == (if plays {
                LaneState::Playing
            } else {
                LaneState::Stopped
            })
        }),
{
    reveal(World::lane_commanded);
    reveal(World::job_due);
    reveal(World::job_brought);
    reveal(World::caught_up);
    reveal(World::resumed);
    reveal(World::restarted_if_idle);
    w.lemma_lane(now, i);
    w.lemma_lane(now, j);
    later.lemma_lane(at, j);
    lemma_at_rest(w.jobs, i, false);
    lemma_vacant(w, 0, j);
    let len = w.deck.master;
    let kind = deck::JobKind::LaneCopy {
        src: w.lane(i).live,
        dst: w.lane(j).live,
        from: i as usize,
        to: j as usize,
        resume: w.lane(i).state == LaneState::Playing && w.lane(i).stop_at is None,
    };
    let job = Job { kind, lane: j as usize, visit: deck::Visit { lo: 0, span: len, off: 0, modulus: len }, start: now, progress: 0 };
    let made = lemma_job_slot(w.jobs, job);
    let after = w.commanded(now, align, Command::Copy(i as u8));
    assert(after.jobs == deck::with_job(w.jobs, job));
    let c = choose|c: int|
        0 <= c < after.jobs.len() && ({
            let job = #[trigger] after.jobs[c];
            job is Some && job->0.lane == j && job->0.kind == later.jobs[k]->0.kind && job->0.kind is LaneCopy
        });
    assert(c == made) by {
        if c != made {
            assert(after.jobs[c] == w.jobs[c]);
            reveal(tasks::free_of);
            tasks::lemma_free(w.deck, w.jobs, now, j);
        }
    }
}

// ── Waiting ────────────────────────────────────────────────────────────────────────────────────────

/// A job that a command waits for makes it wait, until that job is done at the earliest.
proof fn lemma_waits(w: World, now: Frame, lane: Option<usize>, needs_free: bool, k: int)
    requires
        w.inv(now),
        0 <= k < w.jobs.len(),
        w.jobs[k] is Some,
        w.jobs[k]->0.delays(lane, needs_free),
    ensures
        deck::delay_until(w.jobs, lane, needs_free) matches Some(f) && w.jobs[k]->0.done_at() <= f && grid::fits(f),
{
    if deck::delay_until(w.jobs, lane, needs_free) is None {
        crate::keeps::lemma_none_delays(w.jobs, lane, needs_free);
    } else {
        crate::looper::laws::law_a_wait_ends_with_its_last_job(w.jobs, lane, needs_free);
        let until = deck::delay_until(w.jobs, lane, needs_free)->0;
        let j = choose|j: int|
            0 <= j < w.jobs.len() && (#[trigger] w.jobs[j]) is Some && w.jobs[j]->0.delays(lane, needs_free)
                && w.jobs[j]->0.done_at() == until;
        w.lemma_job_known(now, j);
    }
}

/// The command waits, for a frame no earlier than `f`, and until then changes nothing.
pub open spec fn waits(w: World, now: Frame, align: Frame, command: Command, f: int) -> bool {
    &&& w.command_answer(now, command) matches Applied::WaitUntil(at) && f <= at
    &&& w.commanded(now, align, command) == w
}

/// While a job works on a lane, or copies from it, what would change the loop under it waits: UNDO, REVERSE, CLEAR,
/// a resume, a new layer.
pub proof fn law_a_command_waits_for_the_work_on_its_lane(w: World, now: Frame, align: Frame, i: int, k: int)
    requires
        w.inv(now),
        0 <= i < TRACK_COUNT,
        w.lane(i).is_committed(),
        w.lane(i).stop_at is None,
        0 <= k < w.jobs.len(),
        w.jobs[k] is Some,
        w.jobs[k]->0.lane == i || w.jobs[k]->0.kind is LaneCopy && w.jobs[k]->0.kind->from == i,
    ensures
        ({
            let done = w.jobs[k]->0.done_at();
            &&& w.lane(i).undo_valid ==> waits(w, now, align, Command::Undo(i as u8), done)
            &&& waits(w, now, align, Command::Reverse(i as u8), done)
            &&& waits(w, now, align, Command::Clear(i as u8), done)
            &&& w.lane(i).state == LaneState::Stopped ==> waits(w, now, align, Command::PlayStop(i as u8), done)
            &&& w.lane(i).state == LaneState::Playing && !w.lane(i).reversed && w.deck.rec is None ==> waits(
                w,
                now,
                align,
                Command::RecDub(i as u8),
                done,
            )
            &&& (exists|j: int| #[trigger] vacant(w, j)) ==> waits(w, now, align, Command::Copy(i as u8), done)
        }),
{
    reveal(World::lane_commanded);
    w.lemma_lane(now, i);
    lemma_waits(w, now, Some(i as usize), false, k);
    lemma_waits(w, now, Some(i as usize), true, k);
    if exists|j: int| #[trigger] vacant(w, j) {
        let j = choose|j: int| #[trigger] vacant(w, j);
        lemma_some_vacant(w, 0, j);
    }
}

proof fn lemma_some_vacant(w: World, k: int, j: int)
    requires
        0 <= k <= j,
        vacant(w, j),
    ensures
        w.first_target(k) is Some,
    decreases j - k,
{
    if k < j {
        lemma_some_vacant(w, k + 1, j);
    }
}

/// PLAY ALL (with a lane to play) and CLEAR ALL wait for any work; a new layer waits also while another lane's is put
/// back.
pub proof fn law_what_takes_every_lane_waits_for_any_work(w: World, now: Frame, align: Frame, k: int, i: int)
    requires
        w.inv(now),
        0 <= k < w.jobs.len(),
        w.jobs[k] is Some,
        0 <= i < TRACK_COUNT,
    ensures
        ({
            let done = w.jobs[k]->0.done_at();
            &&& waits(w, now, align, Command::ClearAll, done)
            &&& w.lane(i).state == LaneState::Stopped ==> waits(w, now, align, Command::PlayAll, done)
            &&& w.jobs[k]->0.kind is Restore && w.lane(i).state == LaneState::Playing && w.lane(i).stop_at is None
                && !w.lane(i).reversed ==> waits(w, now, align, Command::RecDub(i as u8), done)
            &&& w.jobs[k]->0.kind is Restore && w.lane(i).state == LaneState::Empty ==> waits(
                w,
                now,
                align,
                Command::RecDub(i as u8),
                done,
            )
        }),
{
    reveal(World::lane_commanded);
    w.lemma_lane(now, i);
    w.lemma_job_known(now, k);
    lemma_waits(w, now, None, false, k);
    if w.jobs[k]->0.kind is Restore {
        lemma_waits(w, now, Some(i as usize), true, k);
    }
    if w.lane(i).state == LaneState::Stopped {
        assert(w.stopped_lanes()[i]);
    }
}

} // verus!
