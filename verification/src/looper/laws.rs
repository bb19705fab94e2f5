//! What holds of the looper as a whole.

use vstd::prelude::*;

use crate::api::{Action, Event, LaneState, TRACK_COUNT};
use crate::control::Cx;
use crate::deck;
use crate::deck::{Applied, Deck, Job, JobKind, Kind, Lane, World, BUFFER_COUNT};
use crate::float::Single;
use crate::grid;
use crate::grid::{Frame, LOOP_LIMIT};
use crate::looper;
use crate::looper::Looper;
use crate::tasks;

verus! {

/// Every committed lane is one master long, and there is a master.
pub proof fn law_every_committed_lane_is_one_master_long(w: World, now: Frame, i: int)
    requires
        w.inv(now),
        0 <= i < TRACK_COUNT,
        w.lane(i).is_committed() || w.lane(i).state == LaneState::Overdubbing,
    ensures
        w.deck.master > 0,
        w.lane(i).length == w.deck.master,
{
    w.lemma_lane(now, i);
}

/// One lane at most captures: the recorder's.
pub proof fn law_one_lane_at_most_captures(w: World, now: Frame, i: int, j: int)
    requires
        w.inv(now),
        0 <= i < TRACK_COUNT,
        0 <= j < TRACK_COUNT,
        w.lane(i).is_capturing(),
        w.lane(j).is_capturing(),
    ensures
        i == j,
        w.deck.rec is Some,
        w.deck.rec->0.lane == i,
{
    w.lemma_lane(now, i);
    w.lemma_lane(now, j);
}

/// No two owners share a buffer: five live ones, five spares and the free one are eleven.
pub proof fn law_no_two_owners_share_a_buffer(w: World, now: Frame, j: int, k: int)
    requires
        w.inv(now),
        0 <= j < k < BUFFER_COUNT,
    ensures
        w.deck.owner(j) != w.deck.owner(k),
        0 <= w.deck.owner(j) < BUFFER_COUNT,
        0 <= w.deck.owner(k) < BUFFER_COUNT,
{
    reveal(Deck::pool_ok);
}

/// A lane that sounds, with no swap pending, plays its loop: at device frame `f` the loop position
/// `(f - anchor) mod master`.
pub proof fn law_a_lane_plays_its_loop(l: &Looper, cx: Cx, i: int, f: int)
    requires
        l.ready(cx),
        0 <= i < TRACK_COUNT,
        l.world(cx).sounding(i),
        l.control.deck.lanes@[i].switch_at is None,
    ensures
        l.played(i, f) == l.loop_of(i)[grid::pos_in_loop(
            f,
            l.control.deck.anchor as int,
            l.control.deck.master as int,
        )],
{
    let w = l.world(cx);
    w.lemma_lane(cx.now, i);
    let master = l.control.deck.master as int;
    let pos = grid::pos_in_loop(f, l.control.deck.anchor as int, master);
    vstd::arithmetic::div_mod::lemma_mod_bound(f - l.control.deck.anchor, master);
    let t = l.control.deck.lanes@[i];
    let buf = l.pcm()[t.live as int];
    assert(buf.len() == l.control.deck.capacity);
    let held = looper::repeated(buf, t.period as int, master);
    if t.reversed {
        assert(held.subrange(0, master).reverse()[pos] == held.subrange(0, master)[master - 1 - pos]);
    }
}

/// A committed lane no job works on holds its loop in full: its buffer plays from end to end.
pub proof fn law_an_idle_lane_holds_its_whole_loop(w: World, now: Frame, i: int)
    requires
        w.inv(now),
        0 <= i < TRACK_COUNT,
        w.lane(i).is_committed(),
        !deck::busy(w.jobs, i),
    ensures
        w.lane(i).period == w.lane(i).length,
        w.lane(i).period == w.deck.master,
{
    w.lemma_lane(now, i);
    reveal(deck::whole_ok);
    assert(w.deck.lanes@[i].is_committed());
}

/// A committed lane that no job is on holds its loop in full.
pub proof fn lemma_whole_at_rest(w: World, now: Frame, i: int)
    requires
        w.inv(now),
        0 <= i < TRACK_COUNT,
        w.lane(i).is_committed(),
        looper::gestures::at_rest(w.jobs, i),
    ensures
        w.lane(i).period == w.lane(i).length,
        w.lane(i).period == w.deck.master,
{
    looper::gestures::lemma_at_rest(w.jobs, i, false);
    tasks::lemma_not_busy(w.jobs, i);
    law_an_idle_lane_holds_its_whole_loop(w, now, i);
}

/// A position of a loop `n` times as long, on an anchor whole loops away, is the same position of the loop.
pub proof fn lemma_same_phase(f: int, anchor: int, master: int, loops: int, away: int) -> (t: int)
    requires
        master > 0,
        loops > 0,
    ensures
        grid::pos_in_loop(f, anchor + away * master, loops * master) == master * t + grid::pos_in_loop(f, anchor, master),
{
    let long = loops * master;
    assert(long > 0) by (nonlinear_arith)
        requires
            long == loops * master,
            loops > 0,
            master > 0,
    ;
    let (x, y) = (f - anchor, f - (anchor + away * master));
    vstd::arithmetic::div_mod::lemma_fundamental_div_mod(x, master);
    vstd::arithmetic::div_mod::lemma_fundamental_div_mod(y, long);
    let (q, k) = (x / master, y / long);
    let t = q - away - loops * k;
    assert(y - long * k == master * t + (x - master * q)) by (nonlinear_arith)
        requires
            y == x - away * master,
            long == loops * master,
            t == q - away - loops * k,
    ;
    t
}

/// A take past the master becomes the new master, whole old masters long, and no other loop moves: on every
/// frame each plays the same position of the same buffer as it would have played.
pub proof fn law_a_multiply_moves_no_other_loop(w: World, now: Frame, i: int, raw: Frame, j: int, f: int)
    requires
        w.inv(now),
        0 <= i < TRACK_COUNT,
        w.deck.rec is Some,
        w.deck.rec->0.lane == i,
        w.deck.rec->0.kind == Kind::Take,
        !w.lane(i).auto_armed,
        raw == grid::min_int(w.lane(i).written as int, w.deck.rec->0.end->0 - w.deck.rec->0.start->0) as Frame,
        w.multiplies(raw),
        0 <= j < TRACK_COUNT,
        j != i,
        w.lane(j).is_committed(),
    ensures
        ({
            let after = w.take_committed(now, i, w.deck.rec->0);
            &&& after.deck.master == w.loops_of(raw) * w.deck.master
            &&& after.lane(i).length == after.deck.master
            &&& after.lane(i).period == after.deck.master
            &&& after.lane(j).length == after.deck.master
            &&& after.lane(j).state == w.lane(j).state
            &&& after.lane(j).audible == w.lane(j).audible
            &&& after.deck.heard(j, f) == w.deck.heard(j, f)
        }),
{
    w.lemma_lane(now, j);
    w.lemma_multiply(now, i, raw);
    let rec = w.deck.rec->0;
    let after = w.take_committed(now, i, rec);
    let away = (rec.start->0 - rec.align - w.deck.anchor) / (w.deck.master as int);
    assert(after.deck.lanes@[j] == (Lane { length: after.deck.master, ..w.deck.lanes@[j] }));
    tasks::lemma_heard_multiplied(w.deck, after.deck, j, w.loops_of(raw), away, f);
}

/// A loop repeated to its lane's new length is heard as it was: whichever position is read of the whole
/// buffer then was read of the shorter loop before.
pub proof fn law_a_repeated_loop_sounds_the_same(job: Job, pcm: Seq<Seq<Single>>, capacity: int, p: int)
    requires
        job.wf(capacity),
        job.kind matches JobKind::Fill { fill, .. } && fill.raw == fill.period,
        pcm.len() == BUFFER_COUNT,
        forall|b: int| 0 <= b < BUFFER_COUNT ==> (#[trigger] pcm[b]).len() == capacity,
        0 <= p < job.visit.modulus,
    ensures
        job.kind matches JobKind::Fill { buf, fill } && job.moved(pcm, 0, job.visit.span as int)[buf as int][p]
            == pcm[buf as int][p % (fill.period as int)],
{
    match job.kind {
        JobKind::Fill { buf, fill } => {
            let old = fill.period as int;
            vstd::arithmetic::div_mod::lemma_mod_bound(p, old);
            if p < old {
                vstd::arithmetic::div_mod::lemma_small_mod(p as nat, old as nat);
            } else {
                vstd::arithmetic::div_mod::lemma_small_mod(p as nat, job.visit.modulus as nat);
                job.law_a_whole_job_moves_its_span(pcm, p - old, capacity);
            }
        },
        _ => {},
    }
}

/// UNDO swaps the loop and its undo target; a second UNDO swaps them back.
pub proof fn law_undo_twice_is_no_change(w: World, now: Frame, later: Frame, i: int)
    requires
        0 <= i < TRACK_COUNT,
        w.may_undo(i),
        w.undo_answer(i) == Applied::Done,
    ensures
        ({
            let once = w.undone(now, i);
            let twice = once.undone(later, i);
            &&& once.lane(i).live == w.lane(i).spare
            &&& once.lane(i).spare == w.lane(i).live
            &&& once.lane(i).reversed == w.lane(i).spare_reversed
            &&& once.lane(i).spare_reversed == w.lane(i).reversed
            &&& twice.lane(i).own() == w.lane(i).own()
            &&& twice.lane(i).spare == w.lane(i).spare
            &&& twice.lane(i).spare_reversed == w.lane(i).spare_reversed
            &&& forall|k: int| 0 <= k < TRACK_COUNT && k != i ==> #[trigger] twice.deck.lanes@[k] == w.deck.lanes@[k]
        }),
{
}

/// REVERSE turns the lane's orientation; a second REVERSE turns it back.
pub proof fn law_reverse_twice_is_no_change(w: World, now: Frame, later: Frame, i: int)
    requires
        0 <= i < TRACK_COUNT,
        w.may_reverse(i),
        w.reverse_answer(i) == Applied::Done,
    ensures
        ({
            let once = w.turned(now, i);
            let twice = once.turned(later, i);
            &&& once.lane(i).reversed == !w.lane(i).reversed
            &&& once.lane(i).live == w.lane(i).live
            &&& twice.lane(i).own() == w.lane(i).own()
            &&& forall|k: int| 0 <= k < TRACK_COUNT && k != i ==> #[trigger] twice.deck.lanes@[k] == w.deck.lanes@[k]
        }),
{
}

/// A reversed loop is the loop backwards.
pub proof fn law_a_reversed_loop_is_backwards(buf: Seq<crate::float::Single>, reversed: bool, frames: int)
    requires
        0 <= frames <= buf.len(),
    ensures
        looper::oriented(buf, !reversed, frames) == looper::oriented(buf, reversed, frames).reverse(),
{
    assert(looper::oriented(buf, !reversed, frames) =~= looper::oriented(buf, reversed, frames).reverse());
}

/// A refused press says why and does nothing else, but that a first CLEAR arms its lane and any other
/// press disarms it.
pub proof fn law_a_refused_press_only_says_so(w: World, now: Frame, align: Frame, i: int, action: Action)
    requires
        w.refusal(now, i, action) is Some,
    ensures
        ({
            let after = w.acted(now, align, i, action);
            &&& w.action_answer(now, i, action) == Applied::Done
            &&& after.said == w.said.push(
                Event::Refused { frame: now, lane: i as u8, reason: w.refusal(now, i, action)->0 },
            )
            &&& after.deck == (Deck { clear_armed: after.deck.clear_armed, ..w.deck })
            &&& after.jobs == w.jobs
            &&& after.clock == w.clock
            &&& after.fx == w.fx
        }),
{
}

/// A command that waits changes nothing.
pub proof fn law_a_command_that_waits_changes_nothing(w: World, now: Frame, align: Frame, i: int)
    ensures
        w.rec_dub_answer(i) != Applied::Done ==> w.rec_dubbed(now, align, i) == w,
        w.play_stop_answer(i) != Applied::Done ==> w.play_stopped(now, align, i) == w,
        w.undo_answer(i) != Applied::Done ==> w.undone(now, i) == w,
        w.reverse_answer(i) != Applied::Done ==> w.turned(now, i) == w,
        w.copy_answer(i) != Applied::Done ==> w.copied(now, i) == w,
        w.clear_answer(i) != Applied::Done ==> w.cleared(now, i) == w,
        w.play_all_answer() != Applied::Done ==> w.all_played(now) == w,
        w.wait_answer(None, false) != Applied::Done ==> w.all_cleared(now) == w,
{
}

/// A command waits exactly until the last of the jobs it waits for is done.
pub proof fn law_a_wait_ends_with_its_last_job(jobs: Seq<Option<Job>>, lane: Option<usize>, needs_free: bool)
    requires
        deck::delay_until(jobs, lane, needs_free) is Some,
    ensures
        ({
            let until = deck::delay_until(jobs, lane, needs_free)->0;
            &&& forall|k: int|
                0 <= k < jobs.len() && (#[trigger] jobs[k]) is Some && jobs[k]->0.delays(lane, needs_free)
                    ==> jobs[k]->0.done_at() <= until
            &&& exists|k: int|
                0 <= k < jobs.len() && (#[trigger] jobs[k]) is Some && jobs[k]->0.delays(lane, needs_free)
                    && jobs[k]->0.done_at() == until
        }),
    decreases jobs.len(),
{
    let until = deck::delay_until(jobs, lane, needs_free)->0;
    let n = jobs.len() - 1;
    let before = jobs.drop_last();
    let delayed = deck::delay_until(before, lane, needs_free);
    if delayed is Some {
        law_a_wait_ends_with_its_last_job(before, lane, needs_free);
        let k = choose|k: int|
            0 <= k < before.len() && (#[trigger] before[k]) is Some && before[k]->0.delays(lane, needs_free)
                && before[k]->0.done_at() == delayed->0;
        assert(jobs[k] == before[k]);
    } else {
        crate::keeps::lemma_none_delays(before, lane, needs_free);
    }
    assert(jobs.last() == jobs[n]);
    assert forall|k: int|
        0 <= k < jobs.len() && (#[trigger] jobs[k]) is Some && jobs[k]->0.delays(
            lane,
            needs_free,
        ) implies jobs[k]->0.done_at() <= until by {
        if k < n {
            assert(before[k] == jobs[k]);
        }
    }
}

/// A block job that starts where a head will next touch stays ahead of it: the position the head is on
/// `n` frames later, where the job has it to move, is moved by the end of that frame.
pub proof fn law_a_job_stays_ahead_of_the_head(job: Job, reader: int, n: int, d: int)
    requires
        job.visit.wf(),
        job.visit.span <= job.visit.modulus,
        0 <= reader < job.visit.modulus,
        starts_at_the_head(job, reader),
        0 <= n < LOOP_LIMIT,
        0 <= d < job.visit.span,
        (reader + n) % (job.visit.modulus as int) == (job.visit.lo + d) % (job.visit.modulus as int),
        job.start + n + 1 < i64::MAX,
    ensures
        job.visits(0, job.owed((job.start + n + 1) as Frame), (reader + n) % (job.visit.modulus as int)),
{
    let v = job.visit;
    let (m, span, lo) = (v.modulus as int, v.span as int, v.lo as int);
    let into = (reader - lo) % m;
    vstd::arithmetic::div_mod::lemma_mod_bound(reader - lo, m);
    vstd::arithmetic::div_mod::lemma_fundamental_div_mod(reader - lo, m);
    vstd::arithmetic::div_mod::lemma_fundamental_div_mod(reader + n, m);
    vstd::arithmetic::div_mod::lemma_fundamental_div_mod(lo + d, m);
    let a = (reader - lo) / m;
    let b = (reader + n) / m;
    let c = (lo + d) / m;
    let k = b - a - c;
    // reader + n and lo + d differ by whole loops, and so do reader and lo + into.
    assert(into + n == d + k * m) by (nonlinear_arith)
        requires
            reader - lo == m * a + into,
            reader + n == m * b + (reader + n) % m,
            lo + d == m * c + (lo + d) % m,
            (reader + n) % m == (lo + d) % m,
            k == b - a - c,
    ;
    let s = if into < span {
        if d >= into {
            d - into
        } else {
            d - into + span
        }
    } else {
        d
    };
    assert(k >= 0) by (nonlinear_arith)
        requires
            into + n == d + k * m,
            into >= 0,
            n >= 0,
            d < m,
            m > 0,
    ;
    if k >= 1 {
        assert(k * m >= m) by (nonlinear_arith)
            requires
                k >= 1,
                m > 0,
        ;
    } else {
        assert(k * m == 0) by (nonlinear_arith)
            requires
                k == 0,
        ;
    }
    assert(0 <= s <= n && s < span);
    if into < span && d < into {
        vstd::arithmetic::div_mod::lemma_fundamental_div_mod_converse(v.off + s, span, 1, d);
    } else {
        vstd::arithmetic::div_mod::lemma_small_mod(d as nat, span as nat);
    }
    assert((v.off + s) % span == d);
    assert(v.pos(s) == (lo + d) % m);
}

/// Where a job starts that stays ahead of a head: at what the head reads next, where the job has that to move,
/// else at its beginning.
pub open spec fn starts_at_the_head(job: Job, reader: int) -> bool {
    let into = (reader - job.visit.lo) % (job.visit.modulus as int);
    job.visit.off == (if into < job.visit.span {
        into
    } else {
        0
    })
}

/// A committed take that does not fill its loop is filled from where its head is.
pub proof fn law_a_take_is_filled_from_where_the_head_is(w: World, now: Frame, i: int, stop: bool, fill: grid::TakeFill)
    requires
        w.deck.settings_ok(),
        w.deck.master > 0,
        0 <= i < TRACK_COUNT,
        fill.wf(),
        fill.master == w.deck.master,
        fill.kept() < w.deck.master,
    ensures
        ({
            let after = w.take_laid(now, i, stop, fill);
            let k = deck::first_free(w.jobs);
            let reader = grid::pos_in_loop(now as int, w.deck.anchor as int, w.deck.master as int);
            &&& 0 <= k < after.jobs.len()
            &&& after.jobs[k] matches Some(job) && {
                &&& job.kind == (JobKind::Fill { buf: w.lane(i).live, fill })
                &&& job.lane == i
                &&& job.start == now
                &&& job.visit.lo == fill.kept()
                &&& job.visit.modulus == w.deck.master
                &&& starts_at_the_head(job, reader)
            }
        }),
{
    reveal(World::take_laid);
    crate::keeps::lemma_first_free(w.jobs);
    let (lo, m) = (fill.kept(), w.deck.master as int);
    let reader = grid::pos_in_loop(now as int, w.deck.anchor as int, m);
    vstd::arithmetic::div_mod::lemma_mod_bound(now - w.deck.anchor, m);
    if reader >= lo {
        vstd::arithmetic::div_mod::lemma_small_mod((reader - lo) as nat, m as nat);
    } else {
        vstd::arithmetic::div_mod::lemma_mod_add_multiples_vanish(reader - lo, m);
        vstd::arithmetic::div_mod::lemma_small_mod((reader - lo + m) as nat, m as nat);
    }
}

/// A discarded layer is put back from where the head is.
pub proof fn law_a_layer_is_put_back_from_where_the_head_is(w: World, now: Frame, i: int)
    requires
        w.inv(now),
        0 <= i < TRACK_COUNT,
        w.lane(i).state == LaneState::Overdubbing,
        w.deck.rec->0.summed > 0,
    ensures
        ({
            let rec = w.deck.rec->0;
            let after = w.layer_discarded(now, i, rec);
            let k = deck::first_free(deck::without_lane(w.jobs, i));
            let reader = grid::pos_in_loop(now as int, w.deck.anchor as int, w.deck.master as int);
            &&& 0 <= k < after.jobs.len()
            &&& after.jobs[k] matches Some(job) && {
                &&& job.kind matches JobKind::Restore { src, dst, .. } && src == w.lane(i).spare && dst
                    == w.lane(i).live
                &&& job.lane == i
                &&& job.start == now
                &&& job.visit.lo == rec.first_pos
                &&& job.visit.span == rec.summed
                &&& job.visit.modulus == w.deck.master
                &&& starts_at_the_head(job, reader)
            }
        }),
{
    reveal(World::layer_discarded);
    w.lemma_lane(now, i);
    w.lemma_rec(now);
    let fewer = deck::without_lane(w.jobs, i);
    crate::keeps::lemma_first_free(fewer);
    let reader = grid::pos_in_loop(now as int, w.deck.anchor as int, w.deck.master as int);
    vstd::arithmetic::div_mod::lemma_mod_bound(reader - w.deck.rec->0.first_pos, w.deck.master as int);
}

/// A loop is repeated past what its head plays round.
pub proof fn law_a_loop_is_repeated_past_the_head(w: World, now: Frame, i: int, buf: usize, s: int, f: int)
    requires
        w.inv(now),
        0 <= i < TRACK_COUNT,
        w.lane(i).is_committed(),
        w.lane(i).period < w.lane(i).length,
    ensures
        ({
            let after = w.repeated(now, i, buf);
            let k = deck::first_free(w.jobs);
            &&& 0 <= k < after.jobs.len()
            &&& after.jobs[k] matches Some(job) && w.deck.heard(i, f) < w.lane(i).period <= job.visit.pos(s)
        }),
{
    w.lemma_lane(now, i);
    crate::keeps::lemma_first_free(w.jobs);
    let t = w.lane(i);
    let job = w.repeated(now, i, buf).jobs[deck::first_free(w.jobs)]->0;
    job.visit.lemma_stays_past(s);
    let pos = grid::pos_in_loop(f, w.deck.anchor as int, w.deck.master as int);
    let at = if t.audible.reversed {
        w.deck.master - 1 - pos
    } else {
        pos
    };
    vstd::arithmetic::div_mod::lemma_mod_bound(at, t.period as int);
}

/// A lane that is copied into is silent until the copy is done.
pub proof fn law_a_lane_is_silent_until_its_copy_is_done(w: World, now: Frame, k: int)
    requires
        w.inv(now),
        0 <= k < w.jobs.len(),
        w.jobs[k] matches Some(job) && job.kind is LaneCopy && job.done_at() > now,
    ensures
        w.lane(w.jobs[k]->0.lane as int).state == LaneState::Stopped,
        w.jobs[k]->0.writes() == w.lane(w.jobs[k]->0.lane as int).live,
{
    reveal(tasks::tasks_ok);
    assert(tasks::task_ok(w.deck, w.jobs[k]->0, now));
}

/// No job writes where a head has been: what a lane that plays reads at a frame, no job moves after that frame.
pub proof fn law_no_job_writes_where_a_head_has_been(w: World, now: Frame, k: int, f: int, s: int)
    requires
        w.inv(now),
        0 <= k < w.jobs.len(),
        w.jobs[k] matches Some(job) && {
            &&& job.done_at() > now
            &&& w.lane(job.lane as int).state == LaneState::Playing
            &&& job.writes() == w.lane(job.lane as int).audible.buf
            &&& tasks::owed_by(job.visit, job.start, f + 1) <= s < job.visit.span
        },
        now <= f,
    ensures
        w.jobs[k]->0.visit.pos(s) != w.deck.heard(w.jobs[k]->0.lane as int, f),
{
    reveal(tasks::tasks_ok);
    let job = w.jobs[k]->0;
    let i = job.lane as int;
    assert(tasks::task_ok(w.deck, job, now));
    w.lemma_job_known(now, k);
    w.lemma_lane(now, i);
    let t = w.lane(i);
    if job.kind is Fill && t.period <= job.visit.lo {
        job.visit.lemma_stays_past(s);
        let pos = grid::pos_in_loop(f, w.deck.anchor as int, w.deck.master as int);
        let at = if t.audible.reversed {
            w.deck.master - 1 - pos
        } else {
            pos
        };
        vstd::arithmetic::div_mod::lemma_mod_bound(at, t.period as int);
    } else {
        assert(!tasks::visits_late(w.deck, i, job.visit, job.start, f));
    }
}

/// A command that would do nothing is dropped, never held: what waits for jobs would change something if
/// there were none.
pub proof fn law_a_command_that_waits_would_do_something(w: World, now: Frame, align: Frame, i: int)
    requires
        w.inv(now),
        0 <= i < TRACK_COUNT,
    ensures
        ({
            let v = World { jobs: Seq::empty(), ..w };
            &&& w.play_stop_answer(i) != Applied::Done ==> v.play_stopped(now, align, i).deck != w.deck
            &&& w.undo_answer(i) != Applied::Done ==> v.undone(now, i).deck != w.deck
            &&& w.reverse_answer(i) != Applied::Done ==> v.turned(now, i).deck != w.deck
            &&& w.copy_answer(i) != Applied::Done ==> v.copied(now, i).deck != w.deck
            &&& w.clear_answer(i) != Applied::Done ==> v.cleared(now, i).deck != w.deck
            &&& w.play_all_answer() != Applied::Done ==> v.all_played(now).deck != w.deck
            &&& w.rec_dub_answer(i) != Applied::Done ==> v.rec_dubbed(now, align, i).deck != w.deck
        }),
{
    let v = World { jobs: Seq::empty(), ..w };
    w.lemma_lane(now, i);
    if w.play_stop_answer(i) != Applied::Done {
        reveal(World::stopped);
        reveal(World::resumed);
        reveal(World::restarted_if_idle);
        let after = v.play_stopped(now, align, i);
        assert(after.deck.lanes@[i] != w.deck.lanes@[i]);
    }
    if w.undo_answer(i) != Applied::Done {
        assert(v.undone(now, i).deck.lanes@[i].live != w.deck.lanes@[i].live);
    }
    if w.reverse_answer(i) != Applied::Done {
        assert(v.turned(now, i).deck.lanes@[i].reversed != w.deck.lanes@[i].reversed);
    }
    if w.copy_answer(i) != Applied::Done {
        lemma_same_target(w, v, 0);
        w.lemma_first_target(0);
        let j = w.first_target(0)->0;
        assert(v.copied(now, i).deck.lanes@[j].state != w.deck.lanes@[j].state);
    }
    if w.clear_answer(i) != Applied::Done {
        assert(v.cleared(now, i).deck.lanes@[i].state != w.deck.lanes@[i].state);
    }
    if w.play_all_answer() != Applied::Done {
        let stopped = w.stopped_lanes();
        assert(v.stopped_lanes() =~= stopped);
        let j = choose|j: int| 0 <= j < stopped.len() && stopped[j] == true;
        w.lemma_lane(now, j);
        assert(v.restarted_if_idle(now).deck.lanes == w.deck.lanes) by {
            reveal(World::restarted_if_idle);
        }
        lemma_resumed_from(v.restarted_if_idle(now), now, 0, stopped, j);
        assert(v.all_played(now).deck.lanes@[j].state != w.deck.lanes@[j].state);
    }
    if w.rec_dub_answer(i) != Applied::Done {
        lemma_rec_dub_waits(w, now, align, i);
    }
}

/// REC waits on a lane that plays, for its overdub.
proof fn lemma_rec_dub_waits(w: World, now: Frame, align: Frame, i: int)
    requires
        w.inv(now),
        0 <= i < TRACK_COUNT,
        w.rec_dub_answer(i) != Applied::Done,
    ensures
        (World { jobs: Seq::empty(), ..w }).rec_dubbed(now, align, i).deck != w.deck,
{
    let v = World { jobs: Seq::empty(), ..w };
    w.lemma_lane(now, i);
    let t = w.lane(i);
    if t.state == LaneState::Playing {
        reveal(World::overdubbing);
        assert(v.rec_dubbed(now, align, i).deck.lanes@[i].state == LaneState::Overdubbing);
    } else {
        // An EMPTY lane has no jobs: it waits for a layer that is being restored, while nothing records.
        assert(w.deck.rec is None) by {
            if w.deck.rec is Some {
                tasks::lemma_free(w.deck, w.jobs, now, i);
                reveal(tasks::free_of);
                reveal(deck::jobs_ok);
                law_a_wait_ends_with_its_last_job(w.jobs, Some(i as usize), true);
                let k = choose|k: int|
                    0 <= k < w.jobs.len() && (#[trigger] w.jobs[k]) is Some && w.jobs[k]->0.delays(
                        Some(i as usize),
                        true,
                    );
                assert(!tasks::on_lane(w.jobs[k]->0, i));
            }
        }
        reveal(World::recording);
        let after = v.rec_dubbed(now, align, i);
        assert(after == v.recording(now, align, i, None));
        assert(after.deck.lanes@[i].state == LaneState::Recording);
    }
}

proof fn lemma_same_target(w: World, v: World, k: int)
    requires
        v.deck == w.deck,
        0 <= k <= TRACK_COUNT,
    ensures
        v.first_target(k) == w.first_target(k),
    decreases TRACK_COUNT - k,
{
    if k < TRACK_COUNT {
        lemma_same_target(w, v, k + 1);
    }
}

/// Every lane that was stopped plays.
proof fn lemma_resumed_from(w: World, now: Frame, k: int, stopped: Seq<bool>, j: int)
    requires
        0 <= k <= TRACK_COUNT,
        0 <= j < TRACK_COUNT,
        stopped[j],
        w.lane(j).length != 0,
        j < k ==> w.lane(j).state == LaneState::Playing,
    ensures
        w.resumed_from(now, k, stopped).lane(j).state == LaneState::Playing,
    decreases TRACK_COUNT - k,
{
    if k < TRACK_COUNT {
        reveal(World::resumed);
        let next = if stopped[k] {
            w.resumed(now, k, false)
        } else {
            w
        };
        lemma_resumed_from(next, now, k + 1, stopped, j);
    }
}

} // verus!
